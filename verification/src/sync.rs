//! Decision logic of the chain-event synchronizer: which block range a poll
//! cycle must fetch, and how a raw deposit event's payload words become a
//! note identifier, an amount, and a commitment.

use vstd::prelude::*;

use crate::field::Fe;
use crate::field::reduce_be_bytes;
use crate::field::trimmed_hex;
use crate::hash::derive_commitment;

verus! {

use crate::field::be_nat;
use crate::field::fe_modulus;
use crate::field::trimmed_hex_chars;
use crate::hash::hash2_of;

/// The block range one sync cycle must fetch: nothing while the chain head
/// is not past the watermark, otherwise every block from just above the
/// watermark up to and including the head.
pub fn plan_sync(last_indexed_block: u64, head: u64) -> (r: Option<(u64, u64)>)
    ensures
        (r is Some) <==> head > last_indexed_block,
        r matches Some(range) ==> range.0 == last_indexed_block + 1 && range.1 == head,
{
    if head > last_indexed_block {
        Some((last_indexed_block + 1, head))
    } else {
        None
    }
}

/// One decoded deposit event.
pub struct Deposit {
    pub note_fe: Fe,
    pub amount_fe: Fe,
    pub commitment: Fe,
    pub note_hash_hex: String,
    pub amount_hex: String,
}

/// The 48 big-endian bytes of the reconstructed note identifier: the high
/// word shifted left 128 bits, bitwise-or the low word.
pub open spec fn note_hash_bytes(low: Seq<u8>, high: Seq<u8>) -> Seq<u8> {
    Seq::new(
        48,
        |i: int|
            {
                let h: u8 = if i < 32 {
                    high[i]
                } else {
                    0
                };
                let l: u8 = if i < 16 {
                    0
                } else {
                    low[i - 16]
                };
                h | l
            },
    )
}

/// Decode one deposit event's payload words, each a field-sized value as 32
/// big-endian bytes.  An event with fewer than three words is skipped; from
/// one with at least three, the note identifier is rebuilt from its two
/// halves and reduced into the field, the amount is reduced likewise, and
/// the commitment is derived: the note identifier itself for a zero amount,
/// the hash of the pair otherwise.  The hex strings carry what the store and
/// the indexes use: the unreduced note identifier padded to 64 digits, the
/// amount in minimal hex.
pub fn decode_deposit(words: &Vec<Vec<u8>>) -> (r: Option<Deposit>)
    requires
        forall|i: int| 0 <= i < words@.len() ==> (#[trigger] words@[i])@.len() == 32,
    ensures
        (r is Some) <==> words@.len() >= 3,
        r matches Some(d) ==> {
            let nb = note_hash_bytes(words@[0]@, words@[1]@);
            &&& d.note_fe.wf() && d.note_fe.val() == be_nat(nb) % fe_modulus()
            &&& d.amount_fe.wf() && d.amount_fe.val() == be_nat(words@[2]@) % fe_modulus()
            &&& d.commitment.wf()
            &&& (d.amount_fe.val() == 0 ==> d.commitment.bytes@ == d.note_fe.bytes@)
            &&& (d.amount_fe.val() != 0 ==> d.commitment.val() == hash2_of(
                d.note_fe.val(),
                d.amount_fe.val(),
            ))
            &&& d.note_hash_hex@ == trimmed_hex_chars(nb, 64)
            &&& d.amount_hex@ == trimmed_hex_chars(words@[2]@, 1)
        },
{
    if words.len() < 3 {
        return None;
    }
    let low = &words[0];
    let high = &words[1];
    let amount = &words[2];
    let mut nb: Vec<u8> = Vec::new();
    let mut i: usize = 0;
    while i < 48
        invariant
            nb@.len() == i,
            i <= 48,
            low@.len() == 32,
            high@.len() == 32,
            forall|j: int| 0 <= j < i ==> nb@[j] == note_hash_bytes(low@, high@)[j],
        decreases 48 - i,
    {
        let h: u8 = if i < 32 {
            high[i]
        } else {
            0
        };
        let l: u8 = if i < 16 {
            0
        } else {
            low[i - 16]
        };
        nb.push(h | l);
        i = i + 1;
    }
    proof {
        assert(nb@ =~= note_hash_bytes(low@, high@));
    }
    let note_fe = reduce_be_bytes(&nb);
    let amount_fe = reduce_be_bytes(amount);
    let commitment = derive_commitment(&note_fe, &amount_fe);
    let note_hash_hex = trimmed_hex(&nb, 64);
    let amount_hex = trimmed_hex(amount, 1);
    Some(Deposit { note_fe, amount_fe, commitment, note_hash_hex, amount_hex })
}

} // verus!
