//! Building messages.

use vstd::prelude::*;
use vstd::string::{StrSliceExecFns, StringExecFns};

verus! {

/// The text of a decimal digit.
pub open spec fn digit_text(digit: nat) -> Seq<char> {
    if digit == 0 {
        "0"@
    } else if digit == 1 {
        "1"@
    } else if digit == 2 {
        "2"@
    } else if digit == 3 {
        "3"@
    } else if digit == 4 {
        "4"@
    } else if digit == 5 {
        "5"@
    } else if digit == 6 {
        "6"@
    } else if digit == 7 {
        "7"@
    } else if digit == 8 {
        "8"@
    } else {
        "9"@
    }
}

/// A number in decimal.
pub open spec fn decimal_text(n: nat) -> Seq<char>
    decreases n,
{
    if n < 10 {
        digit_text(n)
    } else {
        decimal_text(n / 10) + digit_text(n % 10)
    }
}

fn digit(d: usize) -> (text: &'static str)
    requires
        d < 10,
    ensures
        text@ == digit_text(d as nat),
{
    match d {
        0 => "0",
        1 => "1",
        2 => "2",
        3 => "3",
        4 => "4",
        5 => "5",
        6 => "6",
        7 => "7",
        8 => "8",
        _ => "9",
    }
}

/// A number in decimal.
pub fn decimal(n: usize) -> (text: String)
    ensures
        text@ == decimal_text(n as nat),
    decreases n,
{
    if n < 10 {
        digit(n).to_owned()
    } else {
        let mut text = decimal(n / 10);
        text.append(digit(n % 10));
        text
    }
}

/// Two pieces of text in a row.
pub fn join2(a: &str, b: &str) -> (text: String)
    ensures
        text@ == a@ + b@,
{
    let mut text = a.to_owned();
    text.append(b);
    text
}

/// Three pieces of text in a row.
pub fn join3(a: &str, b: &str, c: &str) -> (text: String)
    ensures
        text@ == a@ + b@ + c@,
{
    let mut text = a.to_owned();
    text.append(b);
    text.append(c);
    text
}

/// Whether two texts are equal.
pub fn same_text(a: &str, b: &str) -> (same: bool)
    ensures
        same == (a@ == b@),
{
    let left = a.to_owned();
    let right = b.to_owned();
    left == right
}

/// Whether position `i` of a path lies directly behind a `::`.
pub open spec fn behind_separator(path: Seq<char>, i: int) -> bool {
    2 <= i <= path.len() && path[i - 2] == ':' && path[i - 1] == ':'
}

/// Where the last segment of a path starts: behind its last `::`, as far as the
/// first `i` characters show.
pub open spec fn segment_start(path: Seq<char>, i: nat) -> nat
    decreases i,
{
    if i == 0 {
        0
    } else if behind_separator(path, i as int) {
        i
    } else {
        segment_start(path, (i - 1) as nat)
    }
}

/// The last segment of a path: what follows its last `::`.
pub open spec fn last_segment(path: Seq<char>) -> Seq<char> {
    path.skip(segment_start(path, path.len()) as int)
}

/// The short form of a type's or function's full path: its last segment.
pub fn short_name(path: &str) -> (name: &str)
    ensures
        name@ == last_segment(path@),
{
    let n: usize = path.unicode_len();
    let mut i: usize = n;
    while i > 0
        invariant
            i <= n,
            n == path@.len(),
            segment_start(path@, n as nat) == segment_start(path@, i as nat),
        decreases i,
    {
        if i >= 2 && path.get_char(i - 2) == ':' && path.get_char(i - 1) == ':' {
            let name = path.substring_char(i, n);
            assert(name@ =~= path@.skip(i as int));
            return name;
        }
        i = i - 1;
    }
    assert(path@.skip(0) =~= path@);
    path
}

/// An integer in decimal, with a minus sign where it is negative.
pub open spec fn signed_text(n: int) -> Seq<char> {
    if n < 0 {
        "-"@ + decimal_text((-n) as nat)
    } else {
        decimal_text(n as nat)
    }
}

/// An integer in decimal, with a minus sign where it is negative.
pub fn signed(n: i32) -> (text: String)
    ensures
        text@ == signed_text(n as int),
{
    if n < 0 {
        let magnitude = decimal((-(n as i64)) as usize);
        join2("-", magnitude.as_str())
    } else {
        decimal(n as usize)
    }
}

/// The text of a truth value.
pub open spec fn bool_text(b: bool) -> Seq<char> {
    if b {
        "true"@
    } else {
        "false"@
    }
}

/// The text of a truth value.
pub fn bool_name(b: bool) -> (text: &'static str)
    ensures
        text@ == bool_text(b),
{
    if b {
        "true"
    } else {
        "false"
    }
}

/// The last segment of a path is what follows its last `::`: the path ends with
/// it, no `::` ends inside it, and it is the whole path or follows a `::`.
pub proof fn the_last_segment_follows_the_last_separator(path: Seq<char>)
    ensures
        ({
            let n = path.len() - last_segment(path).len();
            &&& 0 <= n <= path.len()
            &&& path == path.take(n) + last_segment(path)
            &&& n == 0 || (n >= 2 && path[n - 2] == ':' && path[n - 1] == ':')
            &&& forall|i: int|
                n < i <= path.len() && i >= 2 ==> !(#[trigger] path[i - 2] == ':' && path[i - 1]
                    == ':')
        }),
{
    lemma_segment_start(path, path.len());
    let n = segment_start(path, path.len()) as int;
    assert(path =~= path.take(n) + last_segment(path));
    assert forall|i: int| n < i <= path.len() && i >= 2 implies !(#[trigger] path[i - 2] == ':'
        && path[i - 1] == ':') by {
        assert(!behind_separator(path, i));
    }
}

proof fn lemma_segment_start(path: Seq<char>, i: nat)
    requires
        i <= path.len(),
    ensures
        segment_start(path, i) <= i,
        segment_start(path, i) > 0 ==> behind_separator(path, segment_start(path, i) as int),
        forall|j: int| segment_start(path, i) < j <= i ==> !(#[trigger] behind_separator(path, j)),
    decreases i,
{
    if i > 0 && !behind_separator(path, i as int) {
        lemma_segment_start(path, (i - 1) as nat);
    }
}

} // verus!
