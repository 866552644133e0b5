use vstd::prelude::*;
use crate::text::chars_of;
use crate::text::i64_of;
use crate::text::parse_i64;

verus! {

/// The place in a list of `len` files that an answer picks, counted from
/// zero: the answer is the number of the file, counted from one. An answer
/// that is no number, or the number of no file, picks none.
pub open spec fn chosen(len: nat, answer: Seq<char>) -> Option<int> {
    match i64_of(answer) {
        Some(number) => if 1 <= number <= len {
            Some(number - 1)
        } else {
            None
        },
        None => None,
    }
}

/// The file that an answer picks from a list by its number, counted from one.
pub fn choose_file(files: &[String], answer: &str) -> (file: Option<String>)
    ensures
        match chosen(files@.len(), answer@) {
            Some(place) => file is Some && file.unwrap()@ == files@[place]@,
            None => file is None,
        },
{
    let chars = chars_of(answer);
    match parse_i64(chars.as_slice()) {
        Some(number) => {
            if number >= 1 && number as u64 <= files.len() as u64 {
                Some(files[(number - 1) as usize].clone())
            } else {
                None
            }
        },
        None => None,
    }
}

} // verus!
