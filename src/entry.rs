//! Typing a key: digits after an optional minus sign, read as an `i32`.

use vstd::prelude::*;

verus! {

/// A key press that the entry line reacts to.
pub enum KeyPress {
    /// A decimal digit, 0 to 9.
    Digit(u8),
    Minus,
    Back,
    Enter,
    Delete,
    Other,
}

/// What a key press asks of the tree.
#[derive(PartialEq, Eq, Structural, Debug, Clone, Copy)]
pub enum Command {
    Insert(i32),
    Remove(i32),
}

/// The text typed so far: an optional leading minus sign, then digits.
pub struct Entry {
    text: Vec<char>,
}

pub open spec fn is_digit(c: char) -> bool {
    '0' <= c && c <= '9'
}

pub open spec fn all_digits(s: Seq<char>) -> bool {
    forall|i: int| 0 <= i < s.len() ==> is_digit(#[trigger] s[i])
}

/// The number that a string of decimal digits spells.
pub open spec fn digits_value(s: Seq<char>) -> int
    decreases s.len(),
{
    if s.len() == 0 {
        0
    } else {
        digits_value(s.drop_last()) * 10 + (s.last() as int - '0' as int)
    }
}

/// The integer that `s` spells: one or more digits, optionally after a
/// minus sign; `None` for any other text.
pub open spec fn entry_value(s: Seq<char>) -> Option<int> {
    if s.len() > 1 && s[0] == '-' && all_digits(s.drop_first()) {
        Some(-digits_value(s.drop_first()))
    } else if s.len() > 0 && all_digits(s) {
        Some(digits_value(s))
    } else {
        None
    }
}

/// The `i32` that `s` spells, `None` when it spells none or one out of range.
pub open spec fn entry_i32(s: Seq<char>) -> Option<i32> {
    match entry_value(s) {
        Some(v) => if i32::MIN <= v <= i32::MAX {
            Some(v as i32)
        } else {
            None
        },
        None => None,
    }
}

/// An entry line holds a minus sign at most at its start, and digits elsewhere.
pub open spec fn well_typed(s: Seq<char>) -> bool {
    forall|i: int| 0 <= i < s.len() ==> (is_digit(#[trigger] s[i]) || (i == 0 && s[i] == '-'))
}

/// Appending digits never makes the number smaller.
proof fn lemma_digits_value_grows(s: Seq<char>, i: int)
    requires
        all_digits(s),
        0 <= i <= s.len(),
    ensures
        0 <= digits_value(s.subrange(0, i)) <= digits_value(s),
    decreases s.len() - i,
{
    let q = s.subrange(0, i);
    assert(all_digits(q)) by {
        assert forall|j: int| 0 <= j < q.len() implies is_digit(#[trigger] q[j]) by {
            assert(q[j] == s[j]);
        }
    }
    lemma_digits_value_nonneg(q);
    if i < s.len() {
        lemma_digits_value_grows(s, i + 1);
        let p = s.subrange(0, i + 1);
        assert(p.drop_last() =~= q);
        assert(p.last() == s[i]);
        assert(is_digit(s[i]));
    } else {
        assert(s.subrange(0, i) =~= s);
    }
}

/// Digits spell a number of at least zero.
proof fn lemma_digits_value_nonneg(s: Seq<char>)
    requires
        all_digits(s),
    ensures
        0 <= digits_value(s),
    decreases s.len(),
{
    if s.len() > 0 {
        lemma_digits_value_nonneg(s.drop_last());
        assert(is_digit(s[s.len() - 1]));
    }
}

/// Reads the number spelled by the digits `text[start..]`, or `None` when it
/// exceeds `bound`.
fn read_digits(text: &Vec<char>, start: usize, bound: i64) -> (r: Option<i64>)
    requires
        start <= text@.len(),
        all_digits(text@.subrange(start as int, text@.len() as int)),
        0 <= bound <= i32::MAX as i64 + 1,
    ensures
        r == (if digits_value(text@.subrange(start as int, text@.len() as int)) <= bound {
            Some(digits_value(text@.subrange(start as int, text@.len() as int)) as i64)
        } else {
            None::<i64>
        }),
        r matches Some(v) ==> 0 <= v <= bound,
        0 <= digits_value(text@.subrange(start as int, text@.len() as int)),
{
    let ghost s = text@.subrange(start as int, text@.len() as int);
    proof {
        lemma_digits_value_nonneg(s);
    }
    let mut value: i64 = 0;
    let mut i: usize = start;
    while i < text.len()
        invariant
            start <= i <= text@.len(),
            s == text@.subrange(start as int, text@.len() as int),
            all_digits(s),
            0 <= bound <= i32::MAX as i64 + 1,
            value as int == digits_value(s.subrange(0, i - start)),
            0 <= value <= bound,
        decreases text@.len() - i,
    {
        let c = text[i];
        proof {
            assert(s[i - start] == c);
            let p = s.subrange(0, i - start + 1);
            assert(p.drop_last() =~= s.subrange(0, i - start));
            assert(p.last() == c);
        }
        let d = (c as u32 - '0' as u32) as i64;
        value = value * 10 + d;
        i = i + 1;
        if value > bound {
            proof {
                lemma_digits_value_grows(s, i - start);
            }
            return None;
        }
    }
    proof {
        assert(s.subrange(0, i - start) =~= s);
    }
    Some(value)
}

/// The `i32` that `text` spells.
fn parse_entry(text: &Vec<char>) -> (r: Option<i32>)
    ensures
        r == entry_i32(text@),
{
    let s = Ghost(text@);
    if text.len() > 1 && text[0] == '-' {
        proof {
            assert(s@.drop_first() =~= s@.subrange(1, s@.len() as int));
        }
        if !all_digits_from(text, 1) {
            proof {
                assert(!is_digit(s@[0]));
            }
            return None;
        }
        let r = read_digits(text, 1, i32::MAX as i64 + 1);
        proof {
            assert(entry_value(s@) == Some(-digits_value(s@.drop_first())));
        }
        match r {
            Some(v) => {
                Some((-v) as i32)
            },
            None => None,
        }
    } else if text.len() > 0 {
        proof {
            assert(s@ =~= s@.subrange(0, s@.len() as int));
        }
        if !all_digits_from(text, 0) {
            return None;
        }
        let r = read_digits(text, 0, i32::MAX as i64);
        proof {
            assert(entry_value(s@) == Some(digits_value(s@)));
        }
        match r {
            Some(v) => Some(v as i32),
            None => None,
        }
    } else {
        None
    }
}

/// Whether `text[start..]` is all digits.
fn all_digits_from(text: &Vec<char>, start: usize) -> (r: bool)
    requires
        start <= text@.len(),
    ensures
        r == all_digits(text@.subrange(start as int, text@.len() as int)),
{
    let ghost s = text@.subrange(start as int, text@.len() as int);
    let mut i: usize = start;
    while i < text.len()
        invariant
            start <= i <= text@.len(),
            s == text@.subrange(start as int, text@.len() as int),
            forall|j: int| 0 <= j < i - start ==> is_digit(#[trigger] s[j]),
        decreases text@.len() - i,
    {
        let c = text[i];
        if !('0' <= c && c <= '9') {
            assert(s[i - start] == c);
            return false;
        }
        i = i + 1;
    }
    true
}

impl Entry {
    pub closed spec fn view(&self) -> Seq<char> {
        self.text@
    }

    /// An empty entry line.
    pub fn new() -> (e: Entry)
        ensures
            e.view() == Seq::<char>::empty(),
    {
        Entry { text: Vec::new() }
    }

    /// The text typed so far.
    pub fn text(&self) -> (r: &Vec<char>)
        ensures
            r@ == self.view(),
    {
        &self.text
    }

    /// Applies one key press: a digit is appended, a minus sign only to an
    /// empty line, Back drops the last character; Enter and Delete empty the
    /// line and ask to insert or remove the number it spelled, if it spelled
    /// an `i32`. Other keys change nothing.
    pub fn press(&mut self, key: KeyPress) -> (c: Option<Command>)
        requires
            key matches KeyPress::Digit(d) ==> d < 10,
        ensures
            well_typed(old(self).view()) ==> well_typed(final(self).view()),
            match key {
                KeyPress::Digit(d) => {
                    &&& final(self).view() == old(self).view().push(('0' as u8 + d) as char)
                    &&& c is None
                },
                KeyPress::Minus => {
                    &&& final(self).view() == (if old(self).view().len() == 0 {
                        seq!['-']
                    } else {
                        old(self).view()
                    })
                    &&& c is None
                },
                KeyPress::Back => {
                    &&& final(self).view() == (if old(self).view().len() == 0 {
                        old(self).view()
                    } else {
                        old(self).view().drop_last()
                    })
                    &&& c is None
                },
                KeyPress::Enter => {
                    &&& final(self).view() == Seq::<char>::empty()
                    &&& c == (match entry_i32(old(self).view()) {
                        Some(v) => Some(Command::Insert(v)),
                        None => None::<Command>,
                    })
                },
                KeyPress::Delete => {
                    &&& final(self).view() == Seq::<char>::empty()
                    &&& c == (match entry_i32(old(self).view()) {
                        Some(v) => Some(Command::Remove(v)),
                        None => None::<Command>,
                    })
                },
                KeyPress::Other => {
                    &&& final(self).view() == old(self).view()
                    &&& c is None
                },
            },
    {
        match key {
            KeyPress::Digit(d) => {
                self.text.push(('0' as u8 + d) as char);
                None
            },
            KeyPress::Minus => {
                if self.text.len() == 0 {
                    self.text.push('-');
                }
                proof {
                    assert(old(self).view().len() == 0 ==> self.view() =~= seq!['-']);
                }
                None
            },
            KeyPress::Back => {
                self.text.pop();
                None
            },
            KeyPress::Enter => {
                let r = match parse_entry(&self.text) {
                    Some(v) => Some(Command::Insert(v)),
                    None => None,
                };
                self.text.clear();
                r
            },
            KeyPress::Delete => {
                let r = match parse_entry(&self.text) {
                    Some(v) => Some(Command::Remove(v)),
                    None => None,
                };
                self.text.clear();
                r
            },
            KeyPress::Other => None,
        }
    }
}

} // verus!
