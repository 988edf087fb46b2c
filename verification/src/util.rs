//! The menu prompt's decisions: what each key press does to the answer being
//! typed, how the answer is read as a number, and which statistic a number
//! selects. Reading keys and writing to the terminal stay with the caller.

use vstd::prelude::*;

verus! {

/// The interactive menu.
pub struct Prompt {}

/// A key press, as the terminal reports it.
pub enum MenuKey {
    Char(char),
    Ctrl(char),
    Alt(char),
    Other,
}

/// What the prompt does after a key press.
#[derive(Debug, PartialEq, Eq)]
pub enum MenuStep {
    /// Leave the menu without an answer.
    Quit,
    /// The answer is complete.
    Submit,
    /// The character was added to the answer; show it.
    Echo(char),
    /// Nothing happens.
    Ignore,
}

/// The statistic a menu number selects.
#[derive(Debug, PartialEq, Eq)]
pub enum MenuAction {
    Names,
    EntryCounts,
    HighestEntryCountSub,
    HighestEntryCountSubName,
    EarliestEntryNames,
    LatestEntryNames,
    Invalid,
}

/// The text `usize::from_str` reads digits from: `s` without one leading `+`.
pub open spec fn unsigned_digits(s: Seq<char>) -> Seq<char> {
    if s.len() > 0 && s[0] == '+' {
        s.drop_first()
    } else {
        s
    }
}

/// The value of a sequence of decimal digits.
pub open spec fn decimal_value(d: Seq<char>) -> nat
    decreases d.len(),
{
    if d.len() == 0 {
        0
    } else {
        decimal_value(d.drop_last()) * 10 + ((d.last() as nat) - ('0' as nat)) as nat
    }
}

/// `s` is an optional `+` followed by one or more decimal digits whose value
/// fits in a `usize`: what `usize::from_str` accepts.
pub open spec fn is_usize_text(s: Seq<char>) -> bool {
    let d = unsigned_digits(s);
    &&& d.len() > 0
    &&& forall|i: int| 0 <= i < d.len() ==> '0' <= #[trigger] d[i] <= '9'
    &&& decimal_value(d) <= usize::MAX
}

/// `String::push`: appends `c`.
#[verifier::external_body]
fn push_char(s: &mut String, c: char)
    ensures
        final(s)@ == old(s)@.push(c),
{
    s.push(c)
}

/// No prefix of a run of decimal digits is worth more than the whole.
proof fn lemma_decimal_prefix(d: Seq<char>, j: int)
    requires
        0 <= j <= d.len(),
        forall|i: int| 0 <= i < d.len() ==> '0' <= #[trigger] d[i] <= '9',
    ensures
        decimal_value(d.take(j)) <= decimal_value(d),
    decreases d.len(),
{
    if j < d.len() {
        let e = d.drop_last();
        assert forall|i: int| 0 <= i < e.len() implies '0' <= #[trigger] e[i] <= '9' by {
            assert(e[i] == d[i]);
        }
        assert(e.take(j) =~= d.take(j));
        lemma_decimal_prefix(e, j);
    } else {
        assert(d.take(j) =~= d);
    }
}

/// The number `s` spells, as `str::parse::<usize>` reads it: an optional
/// `+`, then one or more decimal digits whose value fits; `None` otherwise.
fn parse_usize(s: &str) -> (r: Option<usize>)
    ensures
        match r {
            Some(n) => is_usize_text(s@) && n as nat == decimal_value(unsigned_digits(s@)),
            None => !is_usize_text(s@),
        },
{
    let len = s.unicode_len();
    let start: usize = if len > 0 && s.get_char(0) == '+' {
        1
    } else {
        0
    };
    let ghost d = unsigned_digits(s@);
    assert(d =~= s@.skip(start as int));
    if start >= len {
        return None;
    }
    let mut i: usize = start;
    let mut v: usize = 0;
    assert(d.take(0) =~= seq![]);
    while i < len
        invariant
            start <= i <= len,
            len == s@.len(),
            d == s@.skip(start as int),
            d == unsigned_digits(s@),
            forall|j: int| 0 <= j < i - start ==> '0' <= #[trigger] d[j] <= '9',
            v as nat == decimal_value(d.take(i - start)),
        decreases len - i,
    {
        let ch = s.get_char(i);
        let code = ch as u32;
        assert(d[i - start] == ch);
        if code < 48 || code > 57 {
            return None;
        }
        let digit = (code - 48) as usize;
        let ghost k = i - start;
        assert(d.take(k + 1).drop_last() =~= d.take(k));
        assert(d.take(k + 1).last() == ch);
        let next = match v.checked_mul(10) {
            Some(t) => t.checked_add(digit),
            None => None,
        };
        match next {
            Some(u) => {
                v = u;
            },
            None => {
                proof {
                    if is_usize_text(s@) {
                        lemma_decimal_prefix(d, k + 1);
                    }
                }
                return None;
            },
        }
        i += 1;
    }
    assert(d.take(len - start) =~= d);
    Some(v)
}

impl Prompt {
    /// Handles one key press while an answer is typed: `q`, Ctrl-C and
    /// Ctrl-D quit, Enter submits, any other character is added to `typed`,
    /// and every other key is ignored.
    pub fn menu_step(&self, typed: &mut String, key: MenuKey) -> (step: MenuStep)
        ensures
            match key {
                MenuKey::Char(c) => if c == 'q' {
                    step == MenuStep::Quit && final(typed)@ == old(typed)@
                } else if c == '\n' {
                    step == MenuStep::Submit && final(typed)@ == old(typed)@
                } else {
                    step == MenuStep::Echo(c) && final(typed)@ == old(typed)@.push(c)
                },
                MenuKey::Ctrl(c) => (if c == 'c' || c == 'd' {
                    step == MenuStep::Quit
                } else {
                    step == MenuStep::Ignore
                }) && final(typed)@ == old(typed)@,
                _ => step == MenuStep::Ignore && final(typed)@ == old(typed)@,
            },
    {
        match key {
            MenuKey::Char(c) => {
                if c == 'q' {
                    MenuStep::Quit
                } else if c == '\n' {
                    MenuStep::Submit
                } else {
                    push_char(typed, c);
                    MenuStep::Echo(c)
                }
            },
            MenuKey::Ctrl(c) => {
                if c == 'c' || c == 'd' {
                    MenuStep::Quit
                } else {
                    MenuStep::Ignore
                }
            },
            _ => MenuStep::Ignore,
        }
    }

    /// The menu number a submitted answer spells, or `None` where it is not
    /// one.
    pub fn menu_choice(&self, typed: &str) -> (r: Option<usize>)
        ensures
            match r {
                Some(n) => is_usize_text(typed@) && n as nat == decimal_value(unsigned_digits(typed@)),
                None => !is_usize_text(typed@),
            },
    {
        parse_usize(typed)
    }

    /// What a submitted answer selects: the menu number it spells, or 0
    /// (which selects nothing) where it is not one.
    pub fn menu_answer(&self, typed: &str) -> (n: usize)
        ensures
            n as nat == (if is_usize_text(typed@) {
                decimal_value(unsigned_digits(typed@))
            } else {
                0
            }),
    {
        match self.menu_choice(typed) {
            Some(n) => n,
            None => 0,
        }
    }

    /// The statistic a menu number selects: 1 to 6, in the order the menu
    /// lists them.
    pub fn menu_action(&self, n: usize) -> (a: MenuAction)
        ensures
            a == (if n == 1 {
                MenuAction::Names
            } else if n == 2 {
                MenuAction::EntryCounts
            } else if n == 3 {
                MenuAction::HighestEntryCountSub
            } else if n == 4 {
                MenuAction::HighestEntryCountSubName
            } else if n == 5 {
                MenuAction::EarliestEntryNames
            } else if n == 6 {
                MenuAction::LatestEntryNames
            } else {
                MenuAction::Invalid
            }),
    {
        match n {
            1 => MenuAction::Names,
            2 => MenuAction::EntryCounts,
            3 => MenuAction::HighestEntryCountSub,
            4 => MenuAction::HighestEntryCountSubName,
            5 => MenuAction::EarliestEntryNames,
            6 => MenuAction::LatestEntryNames,
            _ => MenuAction::Invalid,
        }
    }
}

} // verus!
