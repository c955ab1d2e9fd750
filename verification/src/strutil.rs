//! Line-oriented string cleanup for plan descriptions.
//!
//! Rendered query plans carry indentation and blank lines that matter
//! nothing for comparing them. `trim_whitespace` keeps each line's content
//! and drops the rest: whitespace at both ends of every line, empty lines,
//! and the trailing line break.

use vstd::prelude::*;
use vstd::string::StrSliceExecFns;
use vstd::string::StringExecFns;

verus! {

/// Whether a character counts as whitespace: the whitespace characters of
/// the character classes, space, tab, the line and paragraph controls, and
/// the fixed-width spaces.
pub open spec fn spec_is_whitespace(c: char) -> bool {
    c == ' ' || c == '\t' || c == '\n' || c == '\r' || c == '\u{000B}' || c == '\u{000C}'
        || c == '\u{0085}' || c == '\u{00A0}' || c == '\u{1680}' || c == '\u{2000}'
        || c == '\u{2001}' || c == '\u{2002}' || c == '\u{2003}' || c == '\u{2004}'
        || c == '\u{2005}' || c == '\u{2006}' || c == '\u{2007}' || c == '\u{2008}'
        || c == '\u{2009}' || c == '\u{200A}' || c == '\u{2028}' || c == '\u{2029}'
        || c == '\u{202F}' || c == '\u{205F}' || c == '\u{3000}'
}

/// Whether a character counts as whitespace.
#[verifier::when_used_as_spec(spec_is_whitespace)]
pub fn is_whitespace_char(c: char) -> (r: bool)
    ensures
        r == spec_is_whitespace(c),
{
    c == ' ' || c == '\t' || c == '\n' || c == '\r' || c == '\u{000B}' || c == '\u{000C}'
        || c == '\u{0085}' || c == '\u{00A0}' || c == '\u{1680}' || c == '\u{2000}'
        || c == '\u{2001}' || c == '\u{2002}' || c == '\u{2003}' || c == '\u{2004}'
        || c == '\u{2005}' || c == '\u{2006}' || c == '\u{2007}' || c == '\u{2008}'
        || c == '\u{2009}' || c == '\u{200A}' || c == '\u{2028}' || c == '\u{2029}'
        || c == '\u{202F}' || c == '\u{205F}' || c == '\u{3000}'
}

/// The first line of the text and, where a line break follows it, the rest.
pub open spec fn line_split(s: Seq<char>) -> (Seq<char>, Option<Seq<char>>)
    decreases s.len(),
{
    if s.len() == 0 {
        (Seq::empty(), None)
    } else if s[0] == '\n' {
        (Seq::empty(), Some(s.drop_first()))
    } else {
        let (line, rest) = line_split(s.drop_first());
        (seq![s[0]] + line, rest)
    }
}

/// What follows the first line is shorter than the whole text.
pub proof fn lemma_line_split_len(s: Seq<char>)
    ensures
        (match line_split(s).1 {
            Some(rest) => rest.len() < s.len(),
            None => true,
        }),
    decreases s.len(),
{
    if s.len() > 0 && s[0] != '\n' {
        lemma_line_split_len(s.drop_first());
    }
}

/// The text without leading whitespace.
pub open spec fn trim_start_ws(s: Seq<char>) -> Seq<char>
    decreases s.len(),
{
    if s.len() > 0 && spec_is_whitespace(s[0]) {
        trim_start_ws(s.drop_first())
    } else {
        s
    }
}

/// The text without trailing whitespace.
pub open spec fn trim_end_ws(s: Seq<char>) -> Seq<char>
    decreases s.len(),
{
    if s.len() > 0 && spec_is_whitespace(s.last()) {
        trim_end_ws(s.drop_last())
    } else {
        s
    }
}

/// The text without whitespace at either end.
pub open spec fn trim_ws(s: Seq<char>) -> Seq<char> {
    trim_end_ws(trim_start_ws(s))
}

/// The lines of the text, each trimmed, the empty ones dropped, joined with
/// single line breaks and no trailing one.
pub open spec fn trim_ws_lines(s: Seq<char>) -> Seq<char>
    decreases s.len(),
    when true
    via trim_ws_lines_decreases
{
    let (line, rest) = line_split(s);
    let t = trim_ws(line);
    match rest {
        None => t,
        Some(r) => {
            let more = trim_ws_lines(r);
            if t.len() == 0 {
                more
            } else if more.len() == 0 {
                t
            } else {
                t + seq!['\n'] + more
            }
        },
    }
}

#[via_fn]
proof fn trim_ws_lines_decreases(s: Seq<char>) {
    lemma_line_split_len(s);
}

/// Scanning to the first line break finds the first line.
proof fn lemma_line_split_scan(s: Seq<char>, j: int)
    requires
        0 <= j <= s.len(),
        forall|k: int| 0 <= k < j ==> s[k] != '\n',
        j < s.len() ==> s[j] == '\n',
    ensures
        line_split(s).0 == s.subrange(0, j),
        line_split(s).1 == (if j < s.len() {
            Some(s.skip(j + 1))
        } else {
            None::<Seq<char>>
        }),
    decreases s.len(),
{
    if s.len() == 0 {
        assert(line_split(s).0 =~= s.subrange(0, j));
    } else if s[0] == '\n' {
        assert(j == 0);
        assert(line_split(s).0 =~= s.subrange(0, 0));
        assert(s.drop_first() =~= s.skip(1));
    } else {
        assert(j >= 1);
        lemma_line_split_scan(s.drop_first(), j - 1);
        assert(seq![s[0]] + s.drop_first().subrange(0, j - 1) =~= s.subrange(0, j));
        if j < s.len() {
            assert(s.drop_first().skip(j) =~= s.skip(j + 1));
        }
    }
}

/// Scanning past leading whitespace trims the start.
proof fn lemma_trim_start_scan(s: Seq<char>, a: int)
    requires
        0 <= a <= s.len(),
        forall|k: int| 0 <= k < a ==> spec_is_whitespace(s[k]),
        a < s.len() ==> !spec_is_whitespace(s[a]),
    ensures
        trim_start_ws(s) == s.skip(a),
    decreases s.len(),
{
    if a == 0 {
        assert(s.skip(0) =~= s);
    } else {
        lemma_trim_start_scan(s.drop_first(), a - 1);
        assert(s.drop_first().skip(a - 1) =~= s.skip(a));
    }
}

/// Scanning back past trailing whitespace trims the end.
proof fn lemma_trim_end_scan(s: Seq<char>, b: int)
    requires
        0 <= b <= s.len(),
        forall|k: int| b <= k < s.len() ==> spec_is_whitespace(s[k]),
        b > 0 ==> !spec_is_whitespace(s[b - 1]),
    ensures
        trim_end_ws(s) == s.subrange(0, b),
    decreases s.len(),
{
    if b == s.len() {
        if s.len() > 0 && spec_is_whitespace(s.last()) {
            assert(!spec_is_whitespace(s[b - 1]));
            assert(false);
        }
        assert(s.subrange(0, b) =~= s);
    } else {
        lemma_trim_end_scan(s.drop_last(), b);
        assert(s.drop_last().subrange(0, b) =~= s.subrange(0, b));
    }
}

/// Trim one substring of the text by its scanned bounds.
proof fn lemma_trim_scan(s: Seq<char>, a: int, b: int)
    requires
        0 <= a <= b <= s.len(),
        forall|k: int| 0 <= k < a ==> spec_is_whitespace(s[k]),
        forall|k: int| b <= k < s.len() ==> spec_is_whitespace(s[k]),
        a < b ==> !spec_is_whitespace(s[a]) && !spec_is_whitespace(s[b - 1]),
        a == b ==> a == 0,
    ensures
        trim_ws(s) == s.subrange(a, b),
{
    if a == b {
        lemma_trim_start_scan(s, s.len() as int);
        assert(trim_start_ws(s) =~= Seq::<char>::empty());
        assert(trim_ws(s) =~= s.subrange(a, b));
    } else {
        lemma_trim_start_scan(s, a);
        let tail = s.skip(a);
        lemma_trim_end_scan(tail, b - a);
        assert(tail.subrange(0, b - a) =~= s.subrange(a, b));
    }
}

/// Trims whitespace from the start and end of each line in the string,
/// drops the lines that are left empty, and joins the rest with single line
/// breaks.
pub fn trim_whitespace(s: &str) -> (r: String)
    ensures
        r@ == trim_ws_lines(s@),
{
    let len = s.unicode_len();
    let r = trim_ws_lines_from(s, 0, len);
    proof {
        assert(s@.skip(0) =~= s@);
    }
    r
}

/// The trimmed lines of the text from a position on.
fn trim_ws_lines_from(s: &str, pos: usize, len: usize) -> (r: String)
    requires
        len == s@.len(),
        pos <= len,
    ensures
        r@ == trim_ws_lines(s@.skip(pos as int)),
    decreases len - pos,
{
    let ghost suffix = s@.skip(pos as int);
    // find the end of the line
    let mut j: usize = pos;
    while j < len && s.get_char(j) != '\n'
        invariant
            len == s@.len(),
            pos <= j <= len,
            forall|k: int| pos <= k < j as int ==> s@[k] != '\n',
        decreases len - j,
    {
        j = j + 1;
    }
    proof {
        assert forall|k: int| 0 <= k < j - pos implies suffix[k] != '\n' by {
            assert(suffix[k] == s@[pos + k]);
        }
        if (j as int) < len {
            assert(suffix[j - pos] == s@[j as int]);
        }
        lemma_line_split_scan(suffix, j - pos as int);
    }
    // trim the line
    let mut a: usize = pos;
    while a < j && is_whitespace_char(s.get_char(a))
        invariant
            len == s@.len(),
            pos <= a <= j <= len,
            forall|k: int| pos <= k < a as int ==> spec_is_whitespace(s@[k]),
        decreases j - a,
    {
        a = a + 1;
    }
    let mut b: usize = j;
    while b > a && is_whitespace_char(s.get_char(b - 1))
        invariant
            len == s@.len(),
            pos <= a <= b <= j <= len,
            forall|k: int| b <= k < j as int ==> spec_is_whitespace(s@[k]),
        decreases b,
    {
        b = b - 1;
    }
    proof {
        let line = suffix.subrange(0, j - pos as int);
        if a == b {
            // the line is all whitespace
            assert forall|k: int| 0 <= k < line.len() implies spec_is_whitespace(line[k]) by {
                assert(line[k] == s@[pos + k]);
            }
            lemma_trim_scan(line, 0, 0);
        } else {
            assert forall|k: int| 0 <= k < a - pos implies spec_is_whitespace(line[k]) by {
                assert(line[k] == s@[pos + k]);
            }
            assert forall|k: int| b - pos <= k < line.len() implies spec_is_whitespace(
                line[k],
            ) by {
                assert(line[k] == s@[pos + k]);
            }
            assert(line[a - pos as int] == s@[a as int]);
            assert(line[b - pos - 1] == s@[b - 1]);
            lemma_trim_scan(line, a - pos as int, b - pos as int);
        }
        assert(line.subrange(a - pos as int, b - pos as int) =~= s@.subrange(a as int, b as int));
    }
    let t = s.substring_char(a, b);
    if j < len {
        let more = trim_ws_lines_from(s, j + 1, len);
        proof {
            assert(s@.skip(j + 1) =~= suffix.skip(j + 1 - pos));
            assert(line_split(suffix).1 == Some(suffix.skip(j - pos + 1)));
            assert(suffix.skip(j - pos + 1) =~= s@.skip(j + 1));
        }
        if t.unicode_len() == 0 {
            proof {
                assert(trim_ws(line_split(suffix).0) =~= t@);
            }
            more
        } else if more.as_str().unicode_len() == 0 {
            proof {
                assert(more@ =~= Seq::<char>::empty());
            }
            String::from_str(t)
        } else {
            let mut out = String::from_str(t);
            out.append("\n");
            out.append(more.as_str());
            proof {
                reveal_strlit("\n");
                assert(t@ + "\n"@ + more@ =~= trim_ws_lines(suffix));
            }
            out
        }
    } else {
        proof {
            assert(line_split(suffix).1 is None);
        }
        String::from_str(t)
    }
}

/// Whether the pattern occurs in the text at position `i`.
pub open spec fn occurs_at(s: Seq<char>, pat: Seq<char>, i: int) -> bool {
    &&& 0 <= i
    &&& i + pat.len() <= s.len()
    &&& s.subrange(i, i + pat.len()) == pat
}

/// The first position at or after `i` where the pattern occurs.
pub open spec fn find_from(s: Seq<char>, pat: Seq<char>, i: int) -> Option<int>
    decreases s.len() - i,
{
    if i < 0 || i + pat.len() > s.len() {
        None
    } else if pat.len() == 0 {
        Some(i)
    } else if occurs_at(s, pat, i) {
        Some(i)
    } else {
        find_from(s, pat, i + 1)
    }
}

/// A found position is a real occurrence.
pub proof fn lemma_find_from_occurs(s: Seq<char>, pat: Seq<char>, i: int)
    ensures
        (match find_from(s, pat, i) {
            Some(j) => i <= j && occurs_at(s, pat, j),
            None => true,
        }),
    decreases s.len() - i,
{
    if i < 0 || i + pat.len() > s.len() {
    } else if pat.len() == 0 {
        assert(s.subrange(i, i + pat.len()) =~= pat);
    } else if occurs_at(s, pat, i) {
    } else {
        lemma_find_from_occurs(s, pat, i + 1);
    }
}

/// The pieces of the text between occurrences of the separator, in order.
pub open spec fn split_on(s: Seq<char>, sep: Seq<char>) -> Seq<Seq<char>>
    decreases s.len(),
    when sep.len() > 0
    via split_on_decreases
{
    match find_from(s, sep, 0) {
        Some(i) => seq![s.subrange(0, i)] + split_on(s.skip(i + sep.len()), sep),
        None => seq![s],
    }
}

#[via_fn]
proof fn split_on_decreases(s: Seq<char>, sep: Seq<char>) {
    lemma_find_from_occurs(s, sep, 0);
}

/// Whether one piece is found where the matcher looks for it: the first
/// piece at the start, the last piece at the end, every other piece
/// anywhere.
pub open spec fn piece_found(remainder: Seq<char>, piece: Seq<char>, i: int, num: int) -> bool {
    if i == 0 {
        occurs_at(remainder, piece, 0)
    } else if i == num - 1 {
        remainder.len() >= piece.len() && occurs_at(
            remainder,
            piece,
            remainder.len() - piece.len(),
        )
    } else {
        find_from(remainder, piece, 0) is Some
    }
}

/// What is left of the text after matching pieces from `i` on: each found
/// piece consumes the text through its first occurrence; a piece that is not
/// found stops the walk.
pub open spec fn remainder_after(remainder: Seq<char>, pieces: Seq<Seq<char>>, i: int) -> Seq<
    char,
>
    decreases pieces.len() - i,
{
    if i < 0 || i >= pieces.len() {
        remainder
    } else if !piece_found(remainder, pieces[i], i, pieces.len() as int) {
        remainder
    } else {
        match find_from(remainder, pieces[i], 0) {
            Some(idx) => remainder_after(
                remainder.skip(idx + pieces[i].len()),
                pieces,
                i + 1,
            ),
            None => remainder,
        }
    }
}

/// Whether a rendered plan matches an expected pattern: both are cleaned up
/// line by line, the pattern is split on `...`, and the pieces must be found
/// in order — the first at the start, the last at the end — consuming the
/// whole plan.
pub open spec fn spec_plan_matches(plan: Seq<char>, expected: Seq<char>) -> bool {
    let pieces = split_on(trim_ws_lines(expected), seq!['.', '.', '.']);
    remainder_after(trim_ws_lines(plan), pieces, 0).len() == 0
}

/// The characters of a string, in order.
fn chars_of(s: &str) -> (r: Vec<char>)
    ensures
        r@ == s@,
{
    let len = s.unicode_len();
    let mut out: Vec<char> = Vec::new();
    let mut i: usize = 0;
    while i < len
        invariant
            len == s@.len(),
            i <= len,
            out@ =~= s@.subrange(0, i as int),
        decreases len - i,
    {
        proof {
            assert(s@.subrange(0, i as int).push(s@[i as int]) =~= s@.subrange(0, i + 1));
        }
        out.push(s.get_char(i));
        i = i + 1;
    }
    proof {
        assert(out@ =~= s@);
    }
    out
}

/// Whether the pattern occurs at the position.
#[verifier::loop_isolation(false)]
fn occurs_at_exec(s: &Vec<char>, pat: &Vec<char>, i: usize) -> (r: bool)
    requires
        i + pat@.len() <= s@.len(),
    ensures
        r == occurs_at(s@, pat@, i as int),
{
    let s_len: usize = s.len();
    let mut k: usize = 0;
    while k < pat.len()
        invariant
            i + pat@.len() <= s@.len(),
            s_len == s@.len(),
            k <= pat@.len(),
            forall|j: int| 0 <= j < k as int ==> s@[i + j] == pat@[j],
        decreases pat@.len() - k,
    {
        if s[i + k] != pat[k] {
            proof {
                assert(!occurs_at(s@, pat@, i as int)) by {
                    assert(s@.subrange(i as int, i + pat@.len())[k as int] != pat@[k as int]);
                }
            }
            return false;
        }
        k = k + 1;
    }
    proof {
        assert(s@.subrange(i as int, i + pat@.len()) =~= pat@);
    }
    true
}

/// The first occurrence of the pattern at or after the position.
#[verifier::loop_isolation(false)]
fn find_from_exec(s: &Vec<char>, pat: &Vec<char>, from: usize) -> (r: Option<usize>)
    ensures
        (match r {
            Some(j) => find_from(s@, pat@, from as int) == Some(j as int),
            None => find_from(s@, pat@, from as int) is None,
        }),
{
    if pat.len() > s.len() || from > s.len() - pat.len() {
        proof {
            lemma_find_from_none(s@, pat@, from as int);
        }
        return None;
    }
    if pat.len() == 0 {
        return Some(from);
    }
    let bound = s.len() - pat.len();
    let mut i: usize = from;
    while i <= bound
        invariant
            from <= i,
            i <= bound + 1,
            find_from(s@, pat@, from as int) == find_from(s@, pat@, i as int),
        decreases bound + 1 - i,
    {
        if occurs_at_exec(s, pat, i) {
            return Some(i);
        }
        i = i + 1;
    }
    None
}

/// Past the last possible start there is no occurrence.
proof fn lemma_find_from_none(s: Seq<char>, pat: Seq<char>, i: int)
    requires
        i + pat.len() > s.len(),
    ensures
        find_from(s, pat, i) is None,
{
}

/// Split the text on every occurrence of the separator.
#[verifier::loop_isolation(false)]
fn split_on_exec(s: &Vec<char>, sep: &Vec<char>) -> (r: Vec<Vec<char>>)
    requires
        sep@.len() > 0,
    ensures
        r@.map_values(|v: Vec<char>| v@) == split_on(s@, sep@),
    decreases s@.len(),
{
    match find_from_exec(s, sep, 0) {
        None => {
            let mut out: Vec<Vec<char>> = Vec::new();
            out.push(copy_chars(s, 0, s.len()));
            proof {
                assert(s@.subrange(0, s@.len() as int) =~= s@);
                assert(out@.map_values(|v: Vec<char>| v@) =~= seq![s@]);
            }
            out
        },
        Some(i) => {
            let s_len: usize = s.len();
            proof {
                lemma_find_from_occurs(s@, sep@, 0);
                assert(i + sep@.len() <= s_len as int);
            }
            let head = copy_chars(s, 0, i);
            let tail = copy_chars(s, i + sep.len(), s.len());
            let mut out: Vec<Vec<char>> = Vec::new();
            out.push(head);
            let rest = split_on_exec(&tail, sep);
            let mut k: usize = 0;
            proof {
                assert(tail@ =~= s@.skip(i + sep@.len()));
                assert(out@.map_values(|v: Vec<char>| v@) =~= seq![s@.subrange(0, i as int)]);
            }
            while k < rest.len()
                invariant
                    k <= rest@.len(),
                    out@.map_values(|v: Vec<char>| v@) =~= seq![s@.subrange(0, i as int)]
                        + rest@.map_values(|v: Vec<char>| v@).take(k as int),
                decreases rest@.len() - k,
            {
                let ghost prev = out@;
                let piece = copy_chars(&rest[k], 0, rest[k].len());
                proof {
                    assert(piece@ =~= rest@[k as int]@);
                }
                out.push(piece);
                proof {
                    assert(out@.map_values(|v: Vec<char>| v@) =~= prev.map_values(
                        |v: Vec<char>| v@,
                    ).push(rest@[k as int]@));
                    assert((seq![s@.subrange(0, i as int)] + rest@.map_values(
                        |v: Vec<char>| v@,
                    ).take(k as int)).push(rest@[k as int]@) =~= seq![s@.subrange(0, i as int)]
                        + rest@.map_values(|v: Vec<char>| v@).take(k + 1));
                }
                k = k + 1;
            }
            proof {
                assert(rest@.map_values(|v: Vec<char>| v@).take(rest@.len() as int)
                    =~= rest@.map_values(|v: Vec<char>| v@));
                assert(out@.map_values(|v: Vec<char>| v@) =~= split_on(s@, sep@));
            }
            out
        },
    }
}

/// The characters between two positions, copied out.
fn copy_chars(s: &Vec<char>, a: usize, b: usize) -> (r: Vec<char>)
    requires
        a <= b <= s@.len(),
    ensures
        r@ == s@.subrange(a as int, b as int),
{
    let mut out: Vec<char> = Vec::new();
    let mut i: usize = a;
    while i < b
        invariant
            a <= i <= b <= s@.len(),
            out@ =~= s@.subrange(a as int, i as int),
        decreases b - i,
    {
        proof {
            assert(s@.subrange(a as int, i as int).push(s@[i as int]) =~= s@.subrange(
                a as int,
                i + 1,
            ));
        }
        out.push(s[i]);
        i = i + 1;
    }
    proof {
        assert(out@ =~= s@.subrange(a as int, b as int));
    }
    out
}

/// Whether a rendered plan matches an expected pattern.
///
/// Both strings are cleaned up line by line; the pattern is split on `...`;
/// the first piece must open the plan, the last must close it, and every
/// piece must be found in order, each consuming the plan through its first
/// occurrence; nothing may be left over.
#[verifier::loop_isolation(false)]
pub fn plan_matches(plan_desc: &str, expected: &str) -> (r: bool)
    ensures
        r == spec_plan_matches(plan_desc@, expected@),
{
    let plan = trim_whitespace(plan_desc);
    let expected_clean = trim_whitespace(expected);
    let sep: Vec<char> = vec!['.', '.', '.'];
    proof {
        assert(sep@ =~= seq!['.', '.', '.']);
    }
    let pieces = split_on_exec(&chars_of(expected_clean.as_str()), &sep);
    let ghost pieces_v = pieces@.map_values(|v: Vec<char>| v@);
    let mut remainder = chars_of(plan.as_str());
    let num_pieces = pieces.len();
    let mut i: usize = 0;
    while i < num_pieces
        invariant
            i <= num_pieces,
            num_pieces == pieces_v.len(),
            pieces_v == pieces@.map_values(|v: Vec<char>| v@),
            remainder_after(trim_ws_lines(plan_desc@), pieces_v, 0) == remainder_after(
                remainder@,
                pieces_v,
                i as int,
            ),
        decreases num_pieces - i,
    {
        let piece = &pieces[i];
        let found = if i == 0 {
            piece.len() <= remainder.len() && occurs_at_exec(&remainder, piece, 0)
        } else if i == num_pieces - 1 {
            remainder.len() >= piece.len() && occurs_at_exec(
                &remainder,
                piece,
                remainder.len() - piece.len(),
            )
        } else {
            find_from_exec(&remainder, piece, 0).is_some()
        };
        proof {
            assert(found == piece_found(remainder@, pieces_v[i as int], i as int, num_pieces as int));
        }
        if !found {
            return remainder.len() == 0;
        }
        let idx = match find_from_exec(&remainder, piece, 0) {
            Some(idx) => idx,
            None => {
                // a found piece always has a first occurrence
                proof {
                    if i == 0 {
                    } else if i == num_pieces - 1 {
                        lemma_occurrence_is_found(remainder@, pieces_v[i as int]);
                    }
                    assert(false);
                }
                return false;
            },
        };
        let rem_len: usize = remainder.len();
        proof {
            lemma_find_from_occurs(remainder@, pieces_v[i as int], 0);
            assert(idx + piece@.len() <= rem_len as int);
        }
        let next = copy_chars(&remainder, idx + piece.len(), remainder.len());
        proof {
            assert(next@ =~= remainder@.skip(idx + pieces_v[i as int].len()));
        }
        remainder = next;
        i = i + 1;
    }
    remainder.len() == 0
}

/// A text with an occurrence somewhere has a first occurrence.
proof fn lemma_occurrence_is_found(s: Seq<char>, pat: Seq<char>)
    requires
        exists|j: int| occurs_at(s, pat, j),
    ensures
        find_from(s, pat, 0) is Some,
{
    let j = choose|j: int| occurs_at(s, pat, j);
    lemma_find_before(s, pat, 0, j);
}

/// Searching from a position at or before an occurrence finds something.
proof fn lemma_find_before(s: Seq<char>, pat: Seq<char>, i: int, j: int)
    requires
        0 <= i <= j,
        occurs_at(s, pat, j),
    ensures
        find_from(s, pat, i) is Some,
    decreases j - i,
{
    if i < j && !occurs_at(s, pat, i) {
        lemma_find_before(s, pat, i + 1, j);
    }
}

} // verus!
