use vstd::prelude::*;

verus! {

// The text normalizer: byte-order-mark and substitute-character removal,
// line-ending normalization, tab expansion against fixed tab stops, and
// blanking of space-only lines.  Each pass has a specification function that
// defines the pass mathematically and an executable function proved against
// it.

// ---------- specification of the passes ----------

/// The input with one leading byte-order mark removed.
pub open spec fn spec_strip_bom(s: Seq<char>) -> Seq<char> {
    if s.len() >= 1 && s[0] == '\u{FEFF}' {
        s.skip(1)
    } else {
        s
    }
}

/// The input with every substitute control character (U+001A) removed.
pub open spec fn spec_strip_subst(s: Seq<char>) -> Seq<char>
    decreases s.len(),
{
    if s.len() == 0 {
        Seq::empty()
    } else if s[0] == '\u{1A}' {
        spec_strip_subst(s.skip(1))
    } else {
        seq![s[0]] + spec_strip_subst(s.skip(1))
    }
}

/// The input with every carriage return/line feed pair and every lone
/// carriage return replaced by a single line feed.
pub open spec fn spec_normalize_newlines(s: Seq<char>) -> Seq<char>
    decreases s.len(),
{
    if s.len() == 0 {
        Seq::empty()
    } else if s[0] == '\r' {
        if s.len() >= 2 && s[1] == '\n' {
            seq!['\n'] + spec_normalize_newlines(s.skip(2))
        } else {
            seq!['\n'] + spec_normalize_newlines(s.skip(1))
        }
    } else {
        seq![s[0]] + spec_normalize_newlines(s.skip(1))
    }
}

/// A run of `n` spaces.
pub open spec fn spec_spaces(n: int) -> Seq<char> {
    Seq::new(if n < 0 { 0 } else { n as nat }, |k: int| ' ')
}

/// Tab expansion.  `colm` is the current column modulo the tab width; a tab
/// is replaced by `w - colm` spaces, so that the character after it stands at
/// the next multiple of `w` (a full `w` spaces when the tab itself stands at
/// a tab stop).  The column count resets at every line feed.
pub open spec fn spec_detab(s: Seq<char>, w: int, colm: int) -> Seq<char>
    recommends
        1 <= w,
        0 <= colm < w,
    decreases s.len(),
{
    if s.len() == 0 {
        Seq::empty()
    } else if s[0] == '\n' {
        seq!['\n'] + spec_detab(s.skip(1), w, 0)
    } else if s[0] == '\t' {
        spec_spaces(w - colm) + spec_detab(s.skip(1), w, 0)
    } else {
        seq![s[0]] + spec_detab(s.skip(1), w, if colm + 1 == w {
            0
        } else {
            colm + 1
        })
    }
}

/// The position of the first line feed at or after `i`, or the length when
/// there is none.
pub open spec fn spec_find_nl(s: Seq<char>, i: int) -> int
    decreases s.len() - i,
{
    if i < 0 || i >= s.len() {
        s.len() as int
    } else if s[i] == '\n' {
        i
    } else {
        spec_find_nl(s, i + 1)
    }
}

/// Whether every character of the sequence is a space.
pub open spec fn spec_all_spaces(s: Seq<char>) -> bool {
    forall|k: int| 0 <= k < s.len() ==> s[k] == ' '
}

/// The input with every nonempty line that consists of spaces alone replaced
/// by an empty line.
pub open spec fn spec_strip_space_lines(s: Seq<char>) -> Seq<char>
    decreases s.len(),
{
    if s.len() == 0 {
        Seq::empty()
    } else {
        let e = spec_find_nl(s, 0);
        let e2 = if e < 0 {
            0
        } else if e > s.len() {
            s.len() as int
        } else {
            e
        };
        let line = s.take(e2);
        let kept = if e2 > 0 && spec_all_spaces(line) {
            Seq::<char>::empty()
        } else {
            line
        };
        if e2 == s.len() {
            kept
        } else {
            kept + seq!['\n'] + spec_strip_space_lines(s.skip(e2 + 1))
        }
    }
}

/// The whole normalization: strip a byte-order mark and substitute
/// characters, normalize line endings, expand tabs, blank space-only lines.
pub open spec fn spec_cleanup(s: Seq<char>, w: int) -> Seq<char>
    recommends
        1 <= w,
{
    spec_strip_space_lines(
        spec_detab(spec_normalize_newlines(spec_strip_subst(spec_strip_bom(s))), w, 0),
    )
}

// ---------- executable passes ----------

/// Removes a leading byte-order mark.
pub fn strip_bom(v: &Vec<char>) -> (out: Vec<char>)
    ensures
        out@ == spec_strip_bom(v@),
{
    let n = v.len();
    let start: usize = if n >= 1 && v[0] == '\u{FEFF}' {
        1
    } else {
        0
    };
    let mut out: Vec<char> = Vec::new();
    let mut i: usize = start;
    while i < n
        invariant
            start <= i <= n,
            n == v@.len(),
            out@ == v@.subrange(start as int, i as int),
        decreases n - i,
    {
        out.push(v[i]);
        i = i + 1;
        proof {
            assert(out@ =~= v@.subrange(start as int, i as int));
        }
    }
    proof {
        assert(v@.subrange(start as int, n as int) =~= spec_strip_bom(v@));
    }
    out
}

/// Removes every substitute control character.
pub fn strip_subst(v: &Vec<char>) -> (out: Vec<char>)
    ensures
        out@ == spec_strip_subst(v@),
{
    let n = v.len();
    let mut out: Vec<char> = Vec::new();
    let mut i: usize = 0;
    proof {
        assert(v@.skip(0) =~= v@);
        assert(out@ + spec_strip_subst(v@) =~= spec_strip_subst(v@));
    }
    while i < n
        invariant
            i <= n,
            n == v@.len(),
            out@ + spec_strip_subst(v@.skip(i as int)) == spec_strip_subst(v@),
        decreases n - i,
    {
        let c = v[i];
        proof {
            let t = v@.skip(i as int);
            assert(t.len() > 0);
            assert(t[0] == v@[i as int]);
            assert(t.skip(1) =~= v@.skip(i as int + 1));
        }
        if c != '\u{1A}' {
            out.push(c);
            proof {
                assert(out@ =~= out@.drop_last() + seq![c]);
                assert(out@ + spec_strip_subst(v@.skip(i as int + 1)) =~= out@.drop_last()
                    + spec_strip_subst(v@.skip(i as int)));
            }
        }
        i = i + 1;
    }
    proof {
        assert(v@.skip(n as int).len() == 0);
        assert(out@ + spec_strip_subst(v@.skip(n as int)) =~= out@);
    }
    out
}

/// Normalizes line endings to single line feeds.
pub fn normalize_newlines(v: &Vec<char>) -> (out: Vec<char>)
    ensures
        out@ == spec_normalize_newlines(v@),
{
    let n = v.len();
    let mut out: Vec<char> = Vec::new();
    let mut i: usize = 0;
    proof {
        assert(v@.skip(0) =~= v@);
        assert(out@ + spec_normalize_newlines(v@) =~= spec_normalize_newlines(v@));
    }
    while i < n
        invariant
            i <= n,
            n == v@.len(),
            out@ + spec_normalize_newlines(v@.skip(i as int)) == spec_normalize_newlines(v@),
        decreases n - i,
    {
        let c = v[i];
        proof {
            let t = v@.skip(i as int);
            assert(t.len() > 0);
            assert(t[0] == v@[i as int]);
            assert(t.skip(1) =~= v@.skip(i as int + 1));
            if t.len() >= 2 {
                assert(t.skip(2) =~= v@.skip(i as int + 2));
                assert(t[1] == v@[i as int + 1]);
            }
        }
        if c == '\r' {
            out.push('\n');
            proof {
                assert(out@ =~= out@.drop_last() + seq!['\n']);
            }
            if i + 1 < n && v[i + 1] == '\n' {
                proof {
                    assert(out@ + spec_normalize_newlines(v@.skip(i as int + 2))
                        =~= out@.drop_last() + spec_normalize_newlines(v@.skip(i as int)));
                }
                i = i + 2;
            } else {
                proof {
                    assert(out@ + spec_normalize_newlines(v@.skip(i as int + 1))
                        =~= out@.drop_last() + spec_normalize_newlines(v@.skip(i as int)));
                }
                i = i + 1;
            }
        } else {
            out.push(c);
            proof {
                assert(out@ =~= out@.drop_last() + seq![c]);
                assert(out@ + spec_normalize_newlines(v@.skip(i as int + 1))
                    =~= out@.drop_last() + spec_normalize_newlines(v@.skip(i as int)));
            }
            i = i + 1;
        }
    }
    proof {
        assert(v@.skip(n as int).len() == 0);
        assert(out@ + spec_normalize_newlines(v@.skip(n as int)) =~= out@);
    }
    out
}

/// Expands tabs to spaces against tab stops every `w` columns.
pub fn detab(v: &Vec<char>, w: usize) -> (out: Vec<char>)
    requires
        1 <= w,
    ensures
        out@ == spec_detab(v@, w as int, 0),
{
    let n = v.len();
    let mut out: Vec<char> = Vec::new();
    let mut i: usize = 0;
    let mut colm: usize = 0;
    proof {
        assert(v@.skip(0) =~= v@);
        assert(out@ + spec_detab(v@, w as int, 0) =~= spec_detab(v@, w as int, 0));
    }
    while i < n
        invariant
            i <= n,
            n == v@.len(),
            1 <= w,
            colm < w,
            out@ + spec_detab(v@.skip(i as int), w as int, colm as int) == spec_detab(
                v@,
                w as int,
                0,
            ),
        decreases n - i,
    {
        let c = v[i];
        proof {
            let t = v@.skip(i as int);
            assert(t.len() > 0);
            assert(t[0] == v@[i as int]);
            assert(t.skip(1) =~= v@.skip(i as int + 1));
        }
        if c == '\n' {
            out.push('\n');
            proof {
                assert(out@ =~= out@.drop_last() + seq!['\n']);
                assert(out@ + spec_detab(v@.skip(i as int + 1), w as int, 0) =~= out@.drop_last()
                    + spec_detab(v@.skip(i as int), w as int, colm as int));
            }
            colm = 0;
        } else if c == '\t' {
            let pad = w - colm;
            let ghost out0 = out@;
            let mut k: usize = 0;
            while k < pad
                invariant
                    k <= pad,
                    out@ == out0 + spec_spaces(k as int),
                decreases pad - k,
            {
                out.push(' ');
                k = k + 1;
                proof {
                    assert(out@ =~= out0 + spec_spaces(k as int));
                }
            }
            proof {
                assert(out@ + spec_detab(v@.skip(i as int + 1), w as int, 0) =~= out0 + spec_detab(
                    v@.skip(i as int),
                    w as int,
                    colm as int,
                ));
            }
            colm = 0;
        } else {
            out.push(c);
            let newcolm: usize = if colm + 1 == w {
                0
            } else {
                colm + 1
            };
            proof {
                assert(out@ =~= out@.drop_last() + seq![c]);
                assert(out@ + spec_detab(v@.skip(i as int + 1), w as int, newcolm as int)
                    =~= out@.drop_last() + spec_detab(v@.skip(i as int), w as int, colm as int));
            }
            colm = newcolm;
        }
        i = i + 1;
    }
    proof {
        assert(v@.skip(n as int).len() == 0);
        assert(out@ + spec_detab(v@.skip(n as int), w as int, colm as int) =~= out@);
    }
    out
}

/// How `spec_find_nl` relates to the characters: everything before the found
/// position is not a line feed, and the found position holds one unless it is
/// the end.
pub proof fn lemma_find_nl(s: Seq<char>, i: int)
    requires
        0 <= i <= s.len(),
    ensures
        i <= spec_find_nl(s, i) <= s.len(),
        forall|k: int| i <= k < spec_find_nl(s, i) ==> s[k] != '\n',
        spec_find_nl(s, i) < s.len() ==> s[spec_find_nl(s, i)] == '\n',
    decreases s.len() - i,
{
    if i < s.len() && s[i] != '\n' {
        lemma_find_nl(s, i + 1);
    }
}

/// A position with the properties of `spec_find_nl` is `spec_find_nl`.
pub proof fn lemma_find_nl_unique(s: Seq<char>, i: int, e: int)
    requires
        0 <= i <= e <= s.len(),
        forall|k: int| i <= k < e ==> s[k] != '\n',
        e < s.len() ==> s[e] == '\n',
    ensures
        spec_find_nl(s, i) == e,
    decreases s.len() - i,
{
    if i < s.len() && s[i] != '\n' {
        lemma_find_nl_unique(s, i + 1, e);
    }
}

/// Replaces every nonempty line of spaces alone by an empty line.
pub fn strip_space_lines(v: &Vec<char>) -> (out: Vec<char>)
    ensures
        out@ == spec_strip_space_lines(v@),
{
    let n = v.len();
    let mut out: Vec<char> = Vec::new();
    let mut i: usize = 0;
    proof {
        assert(v@.skip(0) =~= v@);
        assert(out@ + spec_strip_space_lines(v@) =~= spec_strip_space_lines(v@));
    }
    while i < n
        invariant
            i <= n,
            n == v@.len(),
            out@ + spec_strip_space_lines(v@.skip(i as int)) == spec_strip_space_lines(v@),
        decreases n - i,
    {
        // find the end of the line and whether it is all spaces
        let mut e: usize = i;
        let mut allsp: bool = true;
        while e < n && v[e] != '\n'
            invariant
                i <= e <= n,
                n == v@.len(),
                forall|k: int| i <= k < e ==> v@[k] != '\n',
                allsp == forall|k: int| i <= k < e ==> v@[k] == ' ',
            decreases n - e,
        {
            if v[e] != ' ' {
                allsp = false;
            }
            e = e + 1;
        }
        proof {
            let t = v@.skip(i as int);
            assert forall|k: int| 0 <= k < e - i implies t[k] != '\n' by {
                assert(t[k] == v@[k + i]);
            }
            if e < n {
                assert(t[e - i] == v@[e as int]);
            }
            lemma_find_nl_unique(t, 0, e - i);
            assert(spec_find_nl(t, 0) == e - i);
            let line = t.take(e - i);
            assert forall|k: int| 0 <= k < line.len() implies line[k] == v@[k + i] by {}
            if allsp {
                assert(spec_all_spaces(line));
            } else {
                assert(!spec_all_spaces(line)) by {
                    let bad = choose|k: int| i <= k < e && v@[k] != ' ';
                    assert(line[bad - i] == v@[bad]);
                }
            }
        }
        let keep: bool = !(e > i && allsp);
        let ghost out0 = out@;
        if keep {
            let mut k: usize = i;
            while k < e
                invariant
                    i <= k <= e <= n,
                    n == v@.len(),
                    out@ == out0 + v@.subrange(i as int, k as int),
                decreases e - k,
            {
                out.push(v[k]);
                k = k + 1;
                proof {
                    assert(out@ =~= out0 + v@.subrange(i as int, k as int));
                }
            }
            proof {
                assert(v@.subrange(i as int, e as int) =~= v@.skip(i as int).take(e - i));
            }
        }
        proof {
            let t = v@.skip(i as int);
            let line = t.take(e - i);
            let kept: Seq<char> = if e > i && spec_all_spaces(line) {
                Seq::<char>::empty()
            } else {
                line
            };
            assert(out@ =~= out0 + kept);
        }
        if e < n {
            out.push('\n');
            proof {
                let t = v@.skip(i as int);
                assert(t.skip(e - i + 1) =~= v@.skip(e as int + 1));
                let line = t.take(e - i);
                let kept: Seq<char> = if e > i && spec_all_spaces(line) {
                    Seq::<char>::empty()
                } else {
                    line
                };
                assert(spec_strip_space_lines(t) == kept + seq!['\n'] + spec_strip_space_lines(
                    v@.skip(e as int + 1),
                ));
                assert(out@ =~= out0 + kept + seq!['\n']);
                assert(out@ + spec_strip_space_lines(v@.skip(e as int + 1)) =~= out0
                    + spec_strip_space_lines(t));
            }
            i = e + 1;
        } else {
            proof {
                let t = v@.skip(i as int);
                let line = t.take(e - i);
                let kept: Seq<char> = if e > i && spec_all_spaces(line) {
                    Seq::<char>::empty()
                } else {
                    line
                };
                assert(t.len() > 0);
                assert(spec_strip_space_lines(t) == kept);
                assert(v@.skip(n as int).len() == 0);
                assert(out@ + spec_strip_space_lines(v@.skip(n as int)) =~= out0
                    + spec_strip_space_lines(t));
            }
            i = n;
        }
    }
    proof {
        assert(v@.skip(n as int).len() == 0);
        assert(out@ + spec_strip_space_lines(v@.skip(n as int)) =~= out@);
    }
    out
}

/// The whole normalization over character vectors.
pub fn cleanup_chars(v: &Vec<char>, w: usize) -> (out: Vec<char>)
    requires
        1 <= w,
    ensures
        out@ == spec_cleanup(v@, w as int),
{
    let a = strip_bom(v);
    let b = strip_subst(&a);
    let c = normalize_newlines(&b);
    let d = detab(&c, w);
    strip_space_lines(&d)
}

// ---------- laws of tab expansion ----------

/// Tab expansion leaves no tab character behind.
pub proof fn lemma_detab_no_tabs(s: Seq<char>, w: int, colm: int)
    requires
        1 <= w,
        0 <= colm < w,
    ensures
        forall|k: int|
            0 <= k < spec_detab(s, w, colm).len() ==> spec_detab(s, w, colm)[k] != '\t',
    decreases s.len(),
{
    if s.len() == 0 {
    } else if s[0] == '\n' {
        lemma_detab_no_tabs(s.skip(1), w, 0);
        let out = spec_detab(s, w, colm);
        let rest = spec_detab(s.skip(1), w, 0);
        assert forall|k: int| 0 <= k < out.len() implies out[k] != '\t' by {
            if k >= 1 {
                assert(out[k] == rest[k - 1]);
            }
        }
    } else if s[0] == '\t' {
        lemma_detab_no_tabs(s.skip(1), w, 0);
        let out = spec_detab(s, w, colm);
        let rest = spec_detab(s.skip(1), w, 0);
        let pad = w - colm;
        assert forall|k: int| 0 <= k < out.len() implies out[k] != '\t' by {
            if k < pad {
                assert(out[k] == ' ');
            } else {
                assert(out[k] == rest[k - pad]);
            }
        }
    } else {
        let colm2: int = if colm + 1 == w {
            0
        } else {
            colm + 1
        };
        lemma_detab_no_tabs(s.skip(1), w, colm2);
        let out = spec_detab(s, w, colm);
        let rest = spec_detab(s.skip(1), w, colm2);
        assert forall|k: int| 0 <= k < out.len() implies out[k] != '\t' by {
            if k >= 1 {
                assert(out[k] == rest[k - 1]);
            }
        }
    }
}

/// On text that holds no tab, the expansion changes nothing.
pub proof fn lemma_detab_tab_free_identity(s: Seq<char>, w: int, colm: int)
    requires
        1 <= w,
        0 <= colm < w,
        forall|k: int| 0 <= k < s.len() ==> s[k] != '\t',
    ensures
        spec_detab(s, w, colm) == s,
    decreases s.len(),
{
    if s.len() == 0 {
        assert(spec_detab(s, w, colm) =~= s);
    } else {
        let colm2: int = if s[0] == '\n' {
            0
        } else if colm + 1 == w {
            0
        } else {
            colm + 1
        };
        assert forall|k: int| 0 <= k < s.skip(1).len() implies s.skip(1)[k] != '\t' by {
            assert(s.skip(1)[k] == s[k + 1]);
        }
        lemma_detab_tab_free_identity(s.skip(1), w, colm2);
        assert(spec_detab(s, w, colm) =~= s);
    }
}

/// Expanding tabs twice is the same as expanding them once: the output is
/// already aligned to the tab stops (idempotence).
pub proof fn lemma_detab_idempotent(s: Seq<char>, w: int)
    requires
        1 <= w,
    ensures
        spec_detab(spec_detab(s, w, 0), w, 0) == spec_detab(s, w, 0),
{
    lemma_detab_no_tabs(s, w, 0);
    lemma_detab_tab_free_identity(spec_detab(s, w, 0), w, 0);
}

/// The marked characters of the text: everything but spaces and tabs.
pub open spec fn spec_ink(s: Seq<char>) -> Seq<char>
    decreases s.len(),
{
    if s.len() == 0 {
        Seq::empty()
    } else if s[0] == ' ' || s[0] == '\t' {
        spec_ink(s.skip(1))
    } else {
        seq![s[0]] + spec_ink(s.skip(1))
    }
}

/// A run of spaces carries no marked characters.
pub proof fn lemma_ink_spaces(n: int, t: Seq<char>)
    ensures
        spec_ink(spec_spaces(n) + t) == spec_ink(t),
    decreases n,
{
    if n <= 0 {
        assert(spec_spaces(n) + t =~= t);
    } else {
        lemma_ink_spaces(n - 1, t);
        assert((spec_spaces(n) + t).skip(1) =~= spec_spaces(n - 1) + t);
        assert((spec_spaces(n) + t)[0] == ' ');
    }
}

/// Tab expansion keeps the marked characters, in order: it only trades tabs
/// for spaces.
pub proof fn lemma_detab_preserves_ink(s: Seq<char>, w: int, colm: int)
    requires
        1 <= w,
        0 <= colm < w,
    ensures
        spec_ink(spec_detab(s, w, colm)) == spec_ink(s),
    decreases s.len(),
{
    if s.len() == 0 {
    } else if s[0] == '\n' {
        lemma_detab_preserves_ink(s.skip(1), w, 0);
        let rest = spec_detab(s.skip(1), w, 0);
        assert((seq!['\n'] + rest).skip(1) =~= rest);
        assert((seq!['\n'] + rest)[0] == '\n');
        assert(spec_ink(spec_detab(s, w, colm)) =~= spec_ink(s));
    } else if s[0] == '\t' {
        lemma_detab_preserves_ink(s.skip(1), w, 0);
        lemma_ink_spaces(w - colm, spec_detab(s.skip(1), w, 0));
        assert(spec_ink(spec_detab(s, w, colm)) =~= spec_ink(s));
    } else {
        let colm2: int = if colm + 1 == w {
            0
        } else {
            colm + 1
        };
        lemma_detab_preserves_ink(s.skip(1), w, colm2);
        let rest = spec_detab(s.skip(1), w, colm2);
        assert((seq![s[0]] + rest).skip(1) =~= rest);
        assert((seq![s[0]] + rest)[0] == s[0]);
        assert(spec_ink(spec_detab(s, w, colm)) =~= spec_ink(s));
    }
}

/// The column math of one tab: it becomes one to `w` spaces, and the
/// character after it stands at the next multiple of the tab width.
pub proof fn lemma_detab_tab_stop(s: Seq<char>, w: int, colm: int)
    requires
        1 <= w,
        0 <= colm < w,
        s.len() > 0,
        s[0] == '\t',
    ensures
        spec_detab(s, w, colm) == spec_spaces(w - colm) + spec_detab(s.skip(1), w, 0),
        1 <= w - colm <= w,
        (colm + (w - colm)) % w == 0,
{
    assert(colm + (w - colm) == w);
    assert(w % w == 0) by (nonlinear_arith)
        requires
            w >= 1,
    ;
}


// ---------- when normalization changes nothing ----------

/// Text without substitute characters passes through unchanged.
pub proof fn lemma_strip_subst_identity(s: Seq<char>)
    requires
        forall|k: int| 0 <= k < s.len() ==> s[k] != '\u{1A}',
    ensures
        spec_strip_subst(s) == s,
    decreases s.len(),
{
    if s.len() == 0 {
        assert(spec_strip_subst(s) =~= s);
    } else {
        assert forall|k: int| 0 <= k < s.skip(1).len() implies s.skip(1)[k] != '\u{1A}' by {
            assert(s.skip(1)[k] == s[k + 1]);
        }
        lemma_strip_subst_identity(s.skip(1));
        assert(spec_strip_subst(s) =~= s);
    }
}

/// Text without carriage returns passes through unchanged.
pub proof fn lemma_normalize_newlines_identity(s: Seq<char>)
    requires
        forall|k: int| 0 <= k < s.len() ==> s[k] != '\r',
    ensures
        spec_normalize_newlines(s) == s,
    decreases s.len(),
{
    if s.len() == 0 {
        assert(spec_normalize_newlines(s) =~= s);
    } else {
        assert forall|k: int| 0 <= k < s.skip(1).len() implies s.skip(1)[k] != '\r' by {
            assert(s.skip(1)[k] == s[k + 1]);
        }
        lemma_normalize_newlines_identity(s.skip(1));
        assert(spec_normalize_newlines(s) =~= s);
    }
}

/// Text in which no line of length one or more consists of spaces alone
/// passes through unchanged.  It is enough that no line begins with a
/// space: the first character is not one, and no space follows a line feed.
pub proof fn lemma_strip_space_lines_identity(s: Seq<char>)
    requires
        s.len() > 0 ==> s[0] != ' ',
        forall|k: int| 0 <= k < s.len() - 1 && #[trigger] s[k] == '\n' ==> s[k + 1] != ' ',
    ensures
        spec_strip_space_lines(s) == s,
    decreases s.len(),
{
    if s.len() > 0 {
        lemma_find_nl(s, 0);
        let e = spec_find_nl(s, 0);
        let line = s.take(e);
        if e > 0 {
            assert(line[0] == s[0]);
            assert(!spec_all_spaces(line));
        }
        if e < s.len() {
            let rest = s.skip(e + 1);
            assert(s[e] == '\n');
            assert forall|k: int|
                0 <= k < rest.len() - 1 && #[trigger] rest[k] == '\n' implies rest[k + 1] != ' ' by {
                assert(rest[k] == s[k + e + 1]);
                assert(rest[k + 1] == s[k + e + 2]);
            }
            if rest.len() > 0 {
                assert(rest[0] == s[e + 1]);
            }
            lemma_strip_space_lines_identity(rest);
            assert(line + seq!['\n'] + rest =~= s);
        } else {
            assert(line =~= s);
        }
    } else {
        assert(spec_strip_space_lines(s) =~= s);
    }
}

} // verus!
