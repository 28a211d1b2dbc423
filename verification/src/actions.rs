//! The decisions of the find window: which action a choice names, the names
//! of the two tags that colour a motif, and the message that reports a count.

use vstd::prelude::*;
use vstd::string::*;

use crate::hex::push_char;
use crate::scan::chars_of;

verus! {

/// What the "modify a motif" choice asks for.
#[derive(Debug, PartialEq, Eq)]
pub enum MotifAction {
    /// Take the motif's tags away.
    Remove,
    /// Give the motif new colours.
    Recolor,
    /// Count the motif's occurrences.
    Count,
    /// A choice the window does not know.
    Unknown,
}

/// The action that the choice's text names.
pub open spec fn action_named(text: Seq<char>) -> MotifAction {
    if text == "Remove"@ {
        MotifAction::Remove
    } else if text == "Recolor"@ {
        MotifAction::Recolor
    } else if text == "Count"@ {
        MotifAction::Count
    } else {
        MotifAction::Unknown
    }
}

fn same_text(a: &str, b: &str) -> (same: bool)
    ensures
        same == (a@ == b@),
{
    let x = chars_of(a);
    let y = chars_of(b);
    if x.len() != y.len() {
        return false;
    }
    let mut i: usize = 0;
    while i < x.len()
        invariant
            x@ == a@,
            y@ == b@,
            x@.len() == y@.len(),
            i <= x@.len(),
            forall|j: int| 0 <= j < i ==> x@[j] == y@[j],
        decreases x@.len() - i,
    {
        if x[i] != y[i] {
            return false;
        }
        i = i + 1;
    }
    assert(x@ =~= y@);
    true
}

/// Reads the action chosen in the "modify a motif" list.
pub fn parse_action(text: &str) -> (action: MotifAction)
    ensures
        action == action_named(text@),
{
    if same_text(text, "Remove") {
        MotifAction::Remove
    } else if same_text(text, "Recolor") {
        MotifAction::Recolor
    } else if same_text(text, "Count") {
        MotifAction::Count
    } else {
        MotifAction::Unknown
    }
}

/// The names of the background and foreground tags that colour `motif`: the
/// motif followed by `_bg`, and by `_fg`.
pub fn tag_names(motif: &str) -> (names: (String, String))
    ensures
        names.0@ == motif@ + "_bg"@,
        names.1@ == motif@ + "_fg"@,
{
    let mut bg = motif.to_owned();
    bg.append("_bg");
    let mut fg = motif.to_owned();
    fg.append("_fg");
    (bg, fg)
}

/// The character of a decimal digit.
pub open spec fn digit_char(d: nat) -> char {
    (48 + d) as char
}

/// The decimal writing of `n`, without leading zeros.
pub open spec fn decimal(n: nat) -> Seq<char>
    decreases n,
{
    if n < 10 {
        seq![digit_char(n)]
    } else {
        decimal(n / 10).push(digit_char(n % 10))
    }
}

fn push_decimal(s: &mut String, n: u32)
    ensures
        final(s)@ == old(s)@ + decimal(n as nat),
    decreases n,
{
    if n >= 10 {
        push_decimal(s, n / 10);
    }
    let d: u32 = n % 10;
    let c: char = if d == 0 {
        '0'
    } else if d == 1 {
        '1'
    } else if d == 2 {
        '2'
    } else if d == 3 {
        '3'
    } else if d == 4 {
        '4'
    } else if d == 5 {
        '5'
    } else if d == 6 {
        '6'
    } else if d == 7 {
        '7'
    } else if d == 8 {
        '8'
    } else {
        '9'
    };
    assert(c == digit_char(d as nat));
    push_char(s, c);
    assert(final(s)@ =~= old(s)@ + decimal(n as nat));
}

/// The message that reports how many times a motif occurs.
pub fn occurrence_message(count: i32) -> (message: String)
    requires
        count >= 0,
    ensures
        message@ == "Nombre d'occurence : "@ + decimal(count as nat),
{
    let mut message = "Nombre d'occurence : ".to_owned();
    push_decimal(&mut message, count as u32);
    message
}

/// Law: the background and foreground tags of a motif never share a name.
pub proof fn lemma_tag_names_distinct(motif: Seq<char>)
    ensures
        motif + "_bg"@ != motif + "_fg"@,
{
    reveal_strlit("_bg");
    reveal_strlit("_fg");
    let bg = motif + "_bg"@;
    let fg = motif + "_fg"@;
    assert(bg[motif.len() as int + 1] == 'b');
    assert(fg[motif.len() as int + 1] == 'f');
}

/// The number that a string of decimal digits stands for, most significant
/// digit first.
pub open spec fn digits_value(digits: Seq<char>) -> int
    decreases digits.len(),
{
    if digits.len() == 0 {
        0
    } else {
        digits_value(digits.drop_last()) * 10 + (digits.last() as int - '0' as int)
    }
}

/// Law: the count is written in base ten: only the digits `0`-`9`, at least
/// one of them, no leading zero unless the count is zero, and reading the
/// digits back gives the count.
pub proof fn lemma_decimal_reads_back(n: nat)
    ensures
        decimal(n).len() > 0,
        forall|i: int| 0 <= i < decimal(n).len() ==> '0' <= #[trigger] decimal(n)[i] <= '9',
        decimal(n)[0] == '0' ==> n == 0,
        digits_value(decimal(n)) == n,
    decreases n,
{
    if n >= 10 {
        lemma_decimal_reads_back(n / 10);
        let d = decimal(n);
        let prefix = decimal(n / 10);
        assert(d.drop_last() =~= prefix);
        assert(d[0] == prefix[0]);
        assert forall|i: int| 0 <= i < d.len() implies '0' <= #[trigger] d[i] <= '9' by {
            if i < prefix.len() {
                assert(d[i] == prefix[i]);
            }
        }
        assert((n / 10) * 10 + n % 10 == n);
        assert(d.last() == digit_char((n % 10) as nat));
        assert(digit_char((n % 10) as nat) as int == 48 + n % 10);
        assert('0' as int == 48);
        assert(digits_value(d) == digits_value(prefix) * 10 + (d.last() as int - '0' as int));
        assert(digits_value(d) == n);
    } else {
        assert(digit_char(n) as int == 48 + n);
        assert(decimal(n).last() == digit_char(n));
        assert(digits_value(decimal(n)) == digits_value(decimal(n).drop_last()) * 10 + (decimal(n).last() as int - '0' as int));
        assert(decimal(n).drop_last() =~= Seq::<char>::empty());
    }
}

} // verus!
