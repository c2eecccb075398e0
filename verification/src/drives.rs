//! Which volumes are mounted, read off the bitmask that the operating system
//! hands out: bit 0 stands for volume `A`, bit 25 for volume `Z`.

use crate::error::{Error, ErrorView};
use crate::text::push_char;
use bitvec::order::Lsb0;
use bitvec::view::BitView;
use vstd::prelude::*;

verus! {

/// The bits of a volume bitmask that stand for no letter.
pub const INVALID_DRIVE_LETTER_BITMASK: u32 = 0xFC00_0000;

/// Bit `index` of `mask` is set, bit 0 being the least significant one.
pub open spec fn bit_at(mask: u32, index: nat) -> bool {
    (mask >> (index as u32)) & 1u32 == 1u32
}

/// The letter of the volume that bit `index` stands for.
pub open spec fn drive_letter(index: nat) -> char
    recommends
        index < 26,
{
    (65 + index) as char
}

/// The number of a character.
pub open spec fn code(c: char) -> int {
    c as int
}

/// The letters of the volumes whose bits are set among the lowest `n` bits
/// of `mask`, in alphabetical order.
pub open spec fn names_below(mask: u32, n: nat) -> Seq<char>
    decreases n,
{
    if n == 0 {
        Seq::empty()
    } else if bit_at(mask, (n - 1) as nat) {
        names_below(mask, (n - 1) as nat).push(drive_letter((n - 1) as nat))
    } else {
        names_below(mask, (n - 1) as nat)
    }
}

/// The letters of the volumes that `mask` names.
pub open spec fn drive_names(mask: u32) -> Seq<char> {
    names_below(mask, 26)
}

/// How many of the lowest `n` bits of `mask` are set.
pub open spec fn count_below(mask: u32, n: nat) -> nat
    decreases n,
{
    if n == 0 {
        0
    } else if bit_at(mask, (n - 1) as nat) {
        count_below(mask, (n - 1) as nat) + 1
    } else {
        count_below(mask, (n - 1) as nat)
    }
}

/// How many bits of `mask` are set.
pub open spec fn popcount(mask: u32) -> nat {
    count_below(mask, 32)
}

/// A bit beyond the twenty-six letters is set in `mask`.
pub open spec fn has_invalid_bit(mask: u32) -> bool {
    exists|index: nat| 26 <= index < 32 && bit_at(mask, index)
}

/// What a volume query that answered `mask` amounts to; `last_error` is the
/// error code that the system holds in case the query failed.
pub open spec fn available_drives(mask: u32, last_error: u32) -> Result<Seq<char>, ErrorView> {
    if mask == 0 {
        Err(ErrorView::DrivesApi(last_error))
    } else if has_invalid_bit(mask) {
        Err(ErrorView::DrivesInvalidNumberOfDrives)
    } else {
        Ok(drive_names(mask))
    }
}

/// The invalid bits are those that the invalid mask selects.
pub proof fn lemma_invalid_bits(mask: u32)
    ensures
        has_invalid_bit(mask) <==> mask & INVALID_DRIVE_LETTER_BITMASK != 0,
        has_invalid_bit(mask) ==> mask != 0,
{
    assert(mask & 0xFC00_0000u32 != 0 <==> ((mask >> 26u32) & 1u32 == 1u32 || (mask >> 27u32) & 1u32
        == 1u32 || (mask >> 28u32) & 1u32 == 1u32 || (mask >> 29u32) & 1u32 == 1u32 || (mask
        >> 30u32) & 1u32 == 1u32 || (mask >> 31u32) & 1u32 == 1u32)) by (bit_vector);
    assert(mask & 0xFC00_0000u32 != 0 ==> mask != 0) by (bit_vector);
    if mask & 0xFC00_0000u32 != 0 {
        assert(bit_at(mask, 26) || bit_at(mask, 27) || bit_at(mask, 28) || bit_at(mask, 29)
            || bit_at(mask, 30) || bit_at(mask, 31));
    }
    if has_invalid_bit(mask) {
        let index = choose|index: nat| 26 <= index < 32 && bit_at(mask, index);
        assert(index == 26 || index == 27 || index == 28 || index == 29 || index == 30 || index
            == 31);
    }
}

/// There are as many names as bits are set.
pub proof fn lemma_names_count(mask: u32, n: nat)
    ensures
        names_below(mask, n).len() == count_below(mask, n),
    decreases n,
{
    if n > 0 {
        lemma_names_count(mask, (n - 1) as nat);
    }
}

/// A letter is among the names exactly where its bit is set, and the names
/// stand in alphabetical order.
pub proof fn lemma_names_members(mask: u32, n: nat)
    requires
        n <= 26,
    ensures
        forall|index: nat|
            index < 26 ==> (names_below(mask, n).contains(#[trigger] drive_letter(index)) <==> (
            index < n && bit_at(mask, index))),
        forall|k: int|
            0 <= k < names_below(mask, n).len() ==> 65 <= code(#[trigger] names_below(mask, n)[k])
                < 65 + n,
        forall|j: int, k: int|
            0 <= j < k < names_below(mask, n).len() ==> code(#[trigger] names_below(mask, n)[j])
                < code(#[trigger] names_below(mask, n)[k]),
        names_below(mask, n).no_duplicates(),
    decreases n,
{
    let names = names_below(mask, n);
    if n > 0 {
        let m = (n - 1) as nat;
        let front = names_below(mask, m);
        lemma_names_members(mask, m);
        assert forall|index: nat| index < 26 implies (names.contains(
            #[trigger] drive_letter(index),
        ) <==> (index < n && bit_at(mask, index))) by {
            let letter = drive_letter(index);
            if bit_at(mask, m) {
                assert(names == front.push(drive_letter(m)));
                if names.contains(letter) {
                    let k = choose|k: int| 0 <= k < names.len() && names[k] == letter;
                    if k < front.len() {
                        assert(front[k] == letter);
                        assert(front.contains(letter));
                    }
                }
                if index < m && bit_at(mask, index) {
                    assert(front.contains(letter));
                    let k = choose|k: int| 0 <= k < front.len() && front[k] == letter;
                    assert(names[k] == letter);
                }
                if index == m {
                    assert(names[front.len() as int] == letter);
                }
            } else {
                if names.contains(letter) && index >= m {
                    let k = choose|k: int| 0 <= k < front.len() && front[k] == letter;
                    assert(65 <= code(front[k]) < 65 + m);
                }
            }
        }
    }
}

/// Where no invalid bit is set, the letters account for every set bit.
pub proof fn lemma_names_account_for_all_bits(mask: u32)
    requires
        !has_invalid_bit(mask),
    ensures
        drive_names(mask).len() == popcount(mask),
{
    lemma_names_count(mask, 26);
    assert(!bit_at(mask, 26) && !bit_at(mask, 27) && !bit_at(mask, 28) && !bit_at(mask, 29)
        && !bit_at(mask, 30) && !bit_at(mask, 31));
    reveal_with_fuel(count_below, 7);
}

/// Trusted: `BitView::view_bits` with the order `Lsb0`, read out bit by bit.
/// For a 32-bit element bitvec gives a slice of 32 bits whose index `i`
/// selects the bit `1 << i` of the element.
#[verifier::external_body]
fn lsb0_bits(mask: u32) -> (bits: Vec<bool>)
    ensures
        bits@.len() == 32,
        forall|index: int| 0 <= index < 32 ==> bits@[index] == bit_at(mask, index as nat),
{
    mask.view_bits::<Lsb0>().iter().by_vals().collect()
}

/// Reads the mounted volumes off the answer of the operating system's volume
/// query: `bit_mask` is the bitmask that it returned and `last_error` the error
/// code that the system holds, which is read only where the bitmask is zero.
///
/// A zero bitmask means that the query failed. A bitmask with a bit beyond
/// the twenty-six letters is refused. Otherwise the letters of the set bits
/// are returned in alphabetical order, each one once.
pub fn get_available_drive_names(bit_mask: u32, last_error: u32) -> (result: Result<
    Vec<char>,
    Error,
>)
    ensures
        match result {
            Ok(names) => Ok::<Seq<char>, ErrorView>(names@),
            Err(error) => Err(error@),
        } == available_drives(bit_mask, last_error),
        has_invalid_bit(bit_mask) ==> result is Err && result->Err_0@
            == ErrorView::DrivesInvalidNumberOfDrives,
        bit_mask != 0 && !has_invalid_bit(bit_mask) ==> {
            &&& result is Ok
            &&& result->Ok_0@.len() == popcount(bit_mask)
            &&& result->Ok_0@.no_duplicates()
            &&& forall|index: nat|
                index < 26 ==> (result->Ok_0@.contains(#[trigger] drive_letter(index)) <==> bit_at(
                    bit_mask,
                    index,
                ))
        },
{
    proof {
        lemma_invalid_bits(bit_mask);
    }
    if bit_mask == 0 {
        Err(Error::DrivesApi(last_error))
    } else if bit_mask & INVALID_DRIVE_LETTER_BITMASK != 0 {
        Err(Error::DrivesInvalidNumberOfDrives)
    } else {
        let bits = lsb0_bits(bit_mask);
        let mut names: Vec<char> = Vec::new();
        let mut index: u8 = 0;
        while index < 26
            invariant
                index <= 26,
                bits@.len() == 32,
                forall|i: int| 0 <= i < 32 ==> bits@[i] == bit_at(bit_mask, i as nat),
                names@ == names_below(bit_mask, index as nat),
            decreases 26 - index,
        {
            if bits[index as usize] {
                names.push((65u8 + index) as char);
            }
            index = index + 1;
        }
        proof {
            lemma_names_members(bit_mask, 26);
            lemma_names_account_for_all_bits(bit_mask);
        }
        Ok(names)
    }
}

/// The path text of the root of the volume `letter`.
pub open spec fn drive_root_text(letter: char) -> Seq<char> {
    seq![letter, ':', '\\']
}

/// The root path of the volume `letter`: the letter, a colon and a backslash.
pub fn drive_root(letter: char) -> (root: String)
    ensures
        root@ == drive_root_text(letter),
{
    let mut root = String::new();
    push_char(&mut root, letter);
    push_char(&mut root, ':');
    push_char(&mut root, '\\');
    assert(root@ =~= drive_root_text(letter));
    root
}

} // verus!
