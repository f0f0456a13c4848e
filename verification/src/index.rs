//! A table from byte strings to numbers.
//!
//! The table is a hash map of strings; each byte string is filed under its
//! text in hexadecimal, which no other byte string has.

use vstd::hash_map::StringHashMap;
use vstd::prelude::*;
use vstd::string::*;

verus! {

/// The hexadecimal digit of a number below sixteen.
pub open spec fn nibble(n: int) -> char {
    if n == 0 {
        '0'
    } else if n == 1 {
        '1'
    } else if n == 2 {
        '2'
    } else if n == 3 {
        '3'
    } else if n == 4 {
        '4'
    } else if n == 5 {
        '5'
    } else if n == 6 {
        '6'
    } else if n == 7 {
        '7'
    } else if n == 8 {
        '8'
    } else if n == 9 {
        '9'
    } else if n == 10 {
        'a'
    } else if n == 11 {
        'b'
    } else if n == 12 {
        'c'
    } else if n == 13 {
        'd'
    } else if n == 14 {
        'e'
    } else {
        'f'
    }
}

/// A byte string in hexadecimal: two digits for each byte.
pub open spec fn hex(bytes: Seq<u8>) -> Seq<char> {
    Seq::new(
        2 * bytes.len(),
        |i: int|
            if i % 2 == 0 {
                nibble(bytes[i / 2] as int / 16)
            } else {
                nibble(bytes[i / 2] as int % 16)
            },
    )
}

/// Two byte strings with the same text in hexadecimal are the same.
pub proof fn lemma_hex_injective(a: Seq<u8>, b: Seq<u8>)
    requires
        hex(a) == hex(b),
    ensures
        a == b,
{
    assert(hex(a).len() == 2 * a.len());
    assert(hex(b).len() == 2 * b.len());
    assert forall|k: int| 0 <= k < a.len() implies a[k] == b[k] by {
        assert(hex(a)[2 * k] == nibble(a[k] as int / 16));
        assert(hex(b)[2 * k] == nibble(b[k] as int / 16));
        assert(hex(a)[2 * k + 1] == nibble(a[k] as int % 16));
        assert(hex(b)[2 * k + 1] == nibble(b[k] as int % 16));
    }
    assert(a =~= b);
}

/// The text of one hexadecimal digit.
fn nibble_str(n: u8) -> (text: &'static str)
    requires
        n < 16,
    ensures
        text@ == seq![nibble(n as int)],
{
    proof {
        reveal_strlit("0");
        reveal_strlit("1");
        reveal_strlit("2");
        reveal_strlit("3");
        reveal_strlit("4");
        reveal_strlit("5");
        reveal_strlit("6");
        reveal_strlit("7");
        reveal_strlit("8");
        reveal_strlit("9");
        reveal_strlit("a");
        reveal_strlit("b");
        reveal_strlit("c");
        reveal_strlit("d");
        reveal_strlit("e");
        reveal_strlit("f");
    }
    let text = if n == 0 {
        "0"
    } else if n == 1 {
        "1"
    } else if n == 2 {
        "2"
    } else if n == 3 {
        "3"
    } else if n == 4 {
        "4"
    } else if n == 5 {
        "5"
    } else if n == 6 {
        "6"
    } else if n == 7 {
        "7"
    } else if n == 8 {
        "8"
    } else if n == 9 {
        "9"
    } else if n == 10 {
        "a"
    } else if n == 11 {
        "b"
    } else if n == 12 {
        "c"
    } else if n == 13 {
        "d"
    } else if n == 14 {
        "e"
    } else {
        "f"
    };
    assert(text@ =~= seq![nibble(n as int)]);
    text
}

/// Writes a byte string in hexadecimal.
pub fn hex_string(bytes: &[u8]) -> (text: String)
    ensures
        text@ == hex(bytes@),
{
    let mut text = String::new();
    let mut i: usize = 0;
    while i < bytes.len()
        invariant
            i <= bytes.len(),
            text@ == hex(bytes@.take(i as int)),
        decreases bytes.len() - i,
    {
        let byte: u8 = bytes[i];
        let ghost before = text@;
        text.append(nibble_str(byte / 16));
        text.append(nibble_str(byte % 16));
        proof {
            let next = bytes@.take(i + 1);
            assert(text@ == before + seq![nibble(byte as int / 16)] + seq![
                nibble(byte as int % 16),
            ]);
            assert(text@.len() == 2 * (i + 1));
            assert forall|j: int| 0 <= j < text@.len() implies text@[j] == hex(next)[j] by {
                if j < 2 * i {
                    assert(text@[j] == before[j]);
                    assert(bytes@.take(i as int)[j / 2] == next[j / 2]);
                } else {
                    assert(next[i as int] == byte);
                }
            }
            assert(text@ =~= hex(next));
        }
        i = i + 1;
    }
    assert(bytes@.take(i as int) =~= bytes@);
    text
}

/// A table from byte strings to numbers.
pub struct KeyIndex {
    by_text: StringHashMap<usize>,
}

impl View for KeyIndex {
    type V = Map<Seq<u8>, usize>;

    closed spec fn view(&self) -> Map<Seq<u8>, usize> {
        Map::new(
            |key: Seq<u8>| self.by_text@.contains_key(hex(key)),
            |key: Seq<u8>| self.by_text@[hex(key)],
        )
    }
}

impl KeyIndex {
    /// A table without entries.
    pub fn new() -> (index: KeyIndex)
        ensures
            index@ == Map::<Seq<u8>, usize>::empty(),
    {
        let index = KeyIndex { by_text: StringHashMap::new() };
        assert(index@ =~= Map::<Seq<u8>, usize>::empty());
        index
    }

    /// The number that a byte string has in the table, if it has one.
    pub fn get(&self, key: &[u8]) -> (number: Option<usize>)
        ensures
            number == if self@.contains_key(key@) {
                Some(self@[key@])
            } else {
                None
            },
    {
        let text = hex_string(key);
        match self.by_text.get(text.as_str()) {
            Some(number) => Some(*number),
            None => None,
        }
    }

    /// Gives a byte string a number, in place of the one it had if it had
    /// one.
    pub fn insert(&mut self, key: &[u8], number: usize)
        ensures
            final(self)@ == old(self)@.insert(key@, number),
    {
        self.by_text.insert(hex_string(key), number);
        proof {
            assert forall|other: Seq<u8>| #[trigger] hex(other) == hex(key@) implies other == key@ by {
                lemma_hex_injective(other, key@);
            }
            assert(self@ =~= old(self)@.insert(key@, number));
        }
    }
}

} // verus!
