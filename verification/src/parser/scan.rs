use vstd::prelude::*;

verus! {

// Character classes and scanning primitives shared by the block and inline
// grammars.  A scan always stays inside a bounded span `[i, end)` of the
// character sequence.

/// A class of characters the scanners test against.
#[derive(Debug, Clone, Copy, PartialEq, Eq)]
pub enum Cls {
    /// Exactly the given character.
    Is(char),
    /// Any character but the given one.
    Not(char),
    /// Horizontal whitespace: space or tab.
    Hspace,
    /// Any whitespace: space, tab, carriage return or line feed.
    Multispace,
    /// The characters on which the inline parser dispatches.
    Peek,
    /// A character that extends a plain text run.
    PlainText,
    /// A character that may stand inside an angle-bracket link target.
    AutolinkBody,
}

/// Whether a character belongs to a class.
pub open spec fn cls_holds(cls: Cls, c: char) -> bool {
    match cls {
        Cls::Is(d) => c == d,
        Cls::Not(d) => c != d,
        Cls::Hspace => c == ' ' || c == '\t',
        Cls::Multispace => c == ' ' || c == '\t' || c == '\r' || c == '\n',
        Cls::Peek => c == '!' || c == '[' || c == '<' || c == '`' || c == '\n',
        Cls::PlainText => !(c == '\n' || c == '[' || c == ']' || c == '<' || c == '>' || c == '!'),
        Cls::AutolinkBody => !(c == '\'' || c == '"' || c == '>' || c == '\r' || c == '\n' || c
            == '\t' || c == '\u{B}' || c == '\u{C}'),
    }
}

/// Tests a character against a class.
pub fn cls_test(cls: Cls, c: char) -> (r: bool)
    ensures
        r == cls_holds(cls, c),
{
    match cls {
        Cls::Is(d) => c == d,
        Cls::Not(d) => c != d,
        Cls::Hspace => c == ' ' || c == '\t',
        Cls::Multispace => c == ' ' || c == '\t' || c == '\r' || c == '\n',
        Cls::Peek => c == '!' || c == '[' || c == '<' || c == '`' || c == '\n',
        Cls::PlainText => !(c == '\n' || c == '[' || c == ']' || c == '<' || c == '>' || c == '!'),
        Cls::AutolinkBody => !(c == '\'' || c == '"' || c == '>' || c == '\r' || c == '\n' || c
            == '\t' || c == '\u{B}' || c == '\u{C}'),
    }
}

/// The first position at or after `i` whose character falls outside the
/// class, or `end` when the class holds through the whole span.
pub open spec fn scan_while(s: Seq<char>, i: int, end: int, cls: Cls) -> int
    decreases end - i,
{
    if 0 <= i < end <= s.len() && cls_holds(cls, s[i]) {
        scan_while(s, i + 1, end, cls)
    } else {
        i
    }
}

/// The result of `scan_while` stays inside the span, the class holds before
/// it and fails at it.
pub proof fn lemma_scan_while(s: Seq<char>, i: int, end: int, cls: Cls)
    requires
        0 <= i <= end <= s.len(),
    ensures
        i <= scan_while(s, i, end, cls) <= end,
        forall|k: int| i <= k < scan_while(s, i, end, cls) ==> cls_holds(cls, s[k]),
        scan_while(s, i, end, cls) < end ==> !cls_holds(cls, s[scan_while(s, i, end, cls)]),
    decreases end - i,
{
    if i < end && cls_holds(cls, s[i]) {
        lemma_scan_while(s, i + 1, end, cls);
    }
}

/// A position with the properties of `scan_while` is `scan_while`.
pub proof fn lemma_scan_while_unique(s: Seq<char>, i: int, end: int, cls: Cls, r: int)
    requires
        0 <= i <= r <= end <= s.len(),
        forall|k: int| i <= k < r ==> cls_holds(cls, s[k]),
        r < end ==> !cls_holds(cls, s[r]),
    ensures
        scan_while(s, i, end, cls) == r,
    decreases end - i,
{
    if i < end && cls_holds(cls, s[i]) {
        lemma_scan_while_unique(s, i + 1, end, cls, r);
    }
}

/// Scans forward from `i` while the class holds, never leaving `[i, end)`.
pub fn scan(s: &Vec<char>, i: usize, end: usize, cls: Cls) -> (r: usize)
    requires
        i <= end <= s@.len(),
    ensures
        r == scan_while(s@, i as int, end as int, cls),
        i <= r <= end,
{
    let mut j = i;
    while j < end && cls_test(cls, s[j])
        invariant
            i <= j <= end <= s@.len(),
            forall|k: int| i <= k < j ==> cls_holds(cls, s@[k]),
        decreases end - j,
    {
        j = j + 1;
    }
    proof {
        lemma_scan_while_unique(s@, i as int, end as int, cls, j as int);
    }
    j
}

/// The least position `k` in `[lo, j]` such that the class holds on all of
/// `[k, j)`: strips a trailing run of the class from the span `[lo, j)`.
pub open spec fn scan_back_while(s: Seq<char>, lo: int, j: int, cls: Cls) -> int
    decreases j - lo,
{
    if 0 <= lo < j <= s.len() && cls_holds(cls, s[j - 1]) {
        scan_back_while(s, lo, j - 1, cls)
    } else {
        j
    }
}

/// The result of `scan_back_while` stays inside the span, the class holds
/// from it on and fails just before it.
pub proof fn lemma_scan_back_while(s: Seq<char>, lo: int, j: int, cls: Cls)
    requires
        0 <= lo <= j <= s.len(),
    ensures
        lo <= scan_back_while(s, lo, j, cls) <= j,
        forall|k: int| scan_back_while(s, lo, j, cls) <= k < j ==> cls_holds(cls, s[k]),
        scan_back_while(s, lo, j, cls) > lo ==> !cls_holds(
            cls,
            s[scan_back_while(s, lo, j, cls) - 1],
        ),
    decreases j - lo,
{
    if lo < j && cls_holds(cls, s[j - 1]) {
        lemma_scan_back_while(s, lo, j - 1, cls);
    }
}

/// A position with the properties of `scan_back_while` is `scan_back_while`.
pub proof fn lemma_scan_back_while_unique(s: Seq<char>, lo: int, j: int, cls: Cls, r: int)
    requires
        0 <= lo <= r <= j <= s.len(),
        forall|k: int| r <= k < j ==> cls_holds(cls, s[k]),
        r > lo ==> !cls_holds(cls, s[r - 1]),
    ensures
        scan_back_while(s, lo, j, cls) == r,
    decreases j - lo,
{
    if lo < j && cls_holds(cls, s[j - 1]) {
        lemma_scan_back_while_unique(s, lo, j - 1, cls, r);
    }
}

/// Scans backward from `j` while the class holds, never leaving `[lo, j)`.
pub fn scan_back(s: &Vec<char>, lo: usize, j: usize, cls: Cls) -> (r: usize)
    requires
        lo <= j <= s@.len(),
    ensures
        r == scan_back_while(s@, lo as int, j as int, cls),
        lo <= r <= j,
{
    let mut k = j;
    while k > lo && cls_test(cls, s[k - 1])
        invariant
            lo <= k <= j <= s@.len(),
            forall|m: int| k <= m < j ==> cls_holds(cls, s@[m]),
        decreases k,
    {
        k = k - 1;
    }
    proof {
        lemma_scan_back_while_unique(s@, lo as int, j as int, cls, k as int);
    }
    k
}

/// Copies the span `[a, b)` of the characters into an owned string.
pub fn copy_range(s: &Vec<char>, a: usize, b: usize) -> (r: String)
    requires
        a <= b <= s@.len(),
    ensures
        r@ == s@.subrange(a as int, b as int),
{
    let mut v: Vec<char> = Vec::new();
    let mut k = a;
    proof {
        assert(v@ =~= s@.subrange(a as int, a as int));
    }
    while k < b
        invariant
            a <= k <= b <= s@.len(),
            v@ == s@.subrange(a as int, k as int),
        decreases b - k,
    {
        v.push(s[k]);
        k = k + 1;
        proof {
            assert(v@ =~= s@.subrange(a as int, k as int));
        }
    }
    crate::chars_string(&v)
}

/// `x` forced into the interval `[lo, hi]`.
pub open spec fn clamped(x: int, lo: int, hi: int) -> int {
    if x < lo {
        lo
    } else if x > hi {
        hi
    } else {
        x
    }
}

} // verus!
