//! Text helpers: ASCII case folding, whitespace, searching and decimal numbers.
//!
//! Strings are modelled by their characters, so every function here states its
//! result over `Seq<char>`.

use vstd::prelude::*;
use vstd::string::StrSliceExecFns;
use vstd::string::StringExecFns;
use vstd::utf8::{decode_utf8, encode_utf8, valid_utf8};

verus! {

/// The characters of a string.
pub fn chars_of(s: &str) -> (cs: Vec<char>)
    ensures
        cs@ == s@,
{
    let mut cs: Vec<char> = Vec::new();
    for c in it: s.chars()
        invariant
            it.seq() == s@,
            cs@ == s@.take(it.index() as int),
    {
        cs.push(c);
        assert(cs@ =~= s@.take(it.index() + 1));
    }
    assert(s@.take(s@.len() as int) =~= s@);
    cs
}

/// `c` with the letters `A` to `Z` folded to lower case; nothing else changes.
pub open spec fn lower(c: char) -> char {
    if 'A' <= c <= 'Z' {
        ((c as u8) + 32) as u8 as char
    } else {
        c
    }
}

/// `s` with the letters `A` to `Z` folded to lower case.
pub open spec fn lowercase(s: Seq<char>) -> Seq<char> {
    s.map_values(|c: char| lower(c))
}

pub fn lower_char(c: char) -> (l: char)
    ensures
        l == lower(c),
{
    if c >= 'A' && c <= 'Z' {
        ((c as u8) + 32) as char
    } else {
        c
    }
}

/// `cs` with the letters `A` to `Z` folded to lower case.
pub fn lower_chars(cs: &[char]) -> (l: Vec<char>)
    ensures
        l@ == lowercase(cs@),
{
    let mut l: Vec<char> = Vec::new();
    let mut i: usize = 0;
    while i < cs.len()
        invariant
            0 <= i <= cs@.len(),
            l@ == lowercase(cs@.take(i as int)),
        decreases cs@.len() - i,
    {
        l.push(lower_char(cs[i]));
        i = i + 1;
        assert(l@ =~= lowercase(cs@.take(i as int)));
    }
    assert(cs@.take(i as int) =~= cs@);
    l
}

/// Whether two character slices are the same.
pub fn chars_eq(a: &[char], b: &[char]) -> (same: bool)
    ensures
        same == (a@ == b@),
{
    if a.len() != b.len() {
        return false;
    }
    let mut i: usize = 0;
    while i < a.len()
        invariant
            a@.len() == b@.len(),
            0 <= i <= a@.len(),
            forall|j: int| 0 <= j < i ==> a@[j] == b@[j],
        decreases a@.len() - i,
    {
        if a[i] != b[i] {
            return false;
        }
        i = i + 1;
    }
    assert(a@ =~= b@);
    true
}

/// Whether two strings are the same.
pub fn str_eq(a: &str, b: &str) -> (same: bool)
    ensures
        same == (a@ == b@),
{
    chars_eq(&chars_of(a), &chars_of(b))
}

/// Whether two strings are the same up to the case of the letters `A` to `Z`.
pub fn eq_ignore_case(a: &str, b: &str) -> (same: bool)
    ensures
        same == (lowercase(a@) == lowercase(b@)),
{
    chars_eq(&lower_chars(&chars_of(a)), &lower_chars(&chars_of(b)))
}

/// Whether `s`, folded to lower case, starts with `prefix`.
pub open spec fn starts_with_folded(s: Seq<char>, prefix: Seq<char>) -> bool {
    prefix.is_prefix_of(lowercase(s))
}

/// Whether `s`, folded to lower case, starts with `prefix`.
pub fn has_folded_prefix(s: &str, prefix: &str) -> (yes: bool)
    ensures
        yes == starts_with_folded(s@, prefix@),
{
    let cs = lower_chars(&chars_of(s));
    let p = chars_of(prefix);
    is_prefix_at(&cs, 0, &p)
}

/// Whether `pat` stands in `cs` at `at`.
fn is_prefix_at(cs: &Vec<char>, at: usize, pat: &Vec<char>) -> (yes: bool)
    requires
        at <= cs@.len(),
    ensures
        yes == pat@.is_prefix_of(cs@.skip(at as int)),
{
    if pat.len() > cs.len() - at {
        return false;
    }
    let mut i: usize = 0;
    while i < pat.len()
        invariant
            0 <= i <= pat@.len(),
            at + pat@.len() <= cs.len(),
            forall|j: int| 0 <= j < i ==> pat@[j] == cs@[at + j],
        decreases pat@.len() - i,
    {
        if cs[at + i] != pat[i] {
            assert(cs@.skip(at as int).subrange(0, pat@.len() as int)[i as int] != pat@[i as int]);
            return false;
        }
        i = i + 1;
    }
    assert(cs@.skip(at as int).subrange(0, pat@.len() as int) =~= pat@);
    true
}

/// Whether `c` occurs in `s`.
pub fn contains_char(s: &str, c: char) -> (yes: bool)
    ensures
        yes == s@.contains(c),
{
    let cs = chars_of(s);
    let mut i: usize = 0;
    while i < cs.len()
        invariant
            cs@ == s@,
            0 <= i <= cs@.len(),
            forall|j: int| 0 <= j < i ==> cs@[j] != c,
        decreases cs@.len() - i,
    {
        if cs[i] == c {
            assert(s@[i as int] == c);
            return true;
        }
        i = i + 1;
    }
    false
}

/// The first index at which `pat` stands in `s`.
pub open spec fn find(s: Seq<char>, pat: Seq<char>) -> Option<int>
    decreases s.len(),
{
    if pat.is_prefix_of(s) {
        Some(0)
    } else if s.len() == 0 {
        None
    } else {
        match find(s.drop_first(), pat) {
            Some(i) => Some(i + 1),
            None => None,
        }
    }
}

/// What `find` returns lies inside the sequence, and the pattern stands there.
pub proof fn lemma_find_bounds(s: Seq<char>, pat: Seq<char>)
    ensures
        find(s, pat) matches Some(i) ==> 0 <= i && i + pat.len() <= s.len() && s.subrange(
            i,
            i + pat.len(),
        ) == pat,
    decreases s.len(),
{
    if pat.is_prefix_of(s) {
    } else if s.len() > 0 {
        lemma_find_bounds(s.drop_first(), pat);
        if let Some(i) = find(s.drop_first(), pat) {
            assert(s.drop_first().subrange(i, i + pat.len()) =~= s.subrange(
                i + 1,
                i + 1 + pat.len(),
            ));
        }
    }
}

/// A character that does not occur is not found.
pub proof fn lemma_find_absent(s: Seq<char>, c: char)
    requires
        !s.contains(c),
    ensures
        find(s, seq![c]) is None,
    decreases s.len(),
{
    if s.len() > 0 {
        assert(s.contains(s[0]));
        assert(s.subrange(0, 1)[0] == s[0]);
        let tail = s.drop_first();
        assert forall|j: int| 0 <= j < tail.len() implies tail[j] != c by {
            assert(s[j + 1] == tail[j]);
        }
        lemma_find_absent(tail, c);
    }
}

/// A character is found behind a text in which it does not occur.
pub proof fn lemma_find_first(s: Seq<char>, c: char)
    requires
        !s.contains(c),
    ensures
        find(s + seq![c], seq![c]) == Some(s.len() as int),
    decreases s.len(),
{
    let t = s + seq![c];
    assert(t.subrange(0, 1)[0] == t[0]);
    if s.len() == 0 {
        assert(t.subrange(0, 1) =~= seq![c]);
    } else {
        assert(s.contains(s[0]));
        assert(t[0] == s[0]);
        let tail = s.drop_first();
        assert forall|j: int| 0 <= j < tail.len() implies tail[j] != c by {
            assert(s[j + 1] == tail[j]);
        }
        lemma_find_first(tail, c);
        assert(t.drop_first() =~= tail + seq![c]);
    }
}

/// A pattern that stands at `i` and nowhere before is found at `i`.
pub proof fn lemma_find_at(s: Seq<char>, pat: Seq<char>, i: int)
    requires
        0 <= i <= s.len(),
        pat.is_prefix_of(s.skip(i)),
        forall|j: int| 0 <= j < i ==> !pat.is_prefix_of(#[trigger] s.skip(j)),
    ensures
        find(s, pat) == Some(i),
    decreases i,
{
    assert(s.skip(0) =~= s);
    if i > 0 {
        assert(!pat.is_prefix_of(s.skip(0)));
        let tail = s.drop_first();
        assert(tail.skip(i - 1) =~= s.skip(i));
        assert forall|j: int| 0 <= j < i - 1 implies !pat.is_prefix_of(#[trigger] tail.skip(j)) by {
            assert(tail.skip(j) =~= s.skip(j + 1));
        }
        lemma_find_at(tail, pat, i - 1);
    }
}

/// A character does not occur before where it is found.
pub proof fn lemma_find_is_first(s: Seq<char>, c: char)
    ensures
        find(s, seq![c]) matches Some(i) ==> 0 <= i < s.len() && s[i] == c && !s.take(i).contains(c),
        find(s, seq![c]) is None ==> !s.contains(c),
    decreases s.len(),
{
    if s.len() > 0 {
        let tail = s.drop_first();
        lemma_find_is_first(tail, c);
        assert(s.subrange(0, 1)[0] == s[0]);
        if s[0] == c {
            assert(s.subrange(0, 1) =~= seq![c]);
        } else {
            if let Some(i) = find(tail, seq![c]) {
                let front = s.take(i + 1);
                assert forall|j: int| 0 <= j < front.len() implies front[j] != c by {
                    if j > 0 {
                        assert(tail.take(i)[j - 1] == front[j]);
                    }
                }
            } else {
                assert forall|j: int| 0 <= j < s.len() implies s[j] != c by {
                    if j > 0 {
                        assert(tail[j - 1] == s[j]);
                    }
                }
            }
        }
    }
}

/// The first index at which `pat` stands in `cs[from..to]`, counted from the start of `cs`.
pub fn find_in(cs: &Vec<char>, from: usize, to: usize, pat: &Vec<char>) -> (at: Option<usize>)
    requires
        from <= to <= cs@.len(),
    ensures
        match at {
            Some(i) => from <= i && i + pat@.len() <= to && find(
                cs@.subrange(from as int, to as int),
                pat@,
            ) == Some(i - from),
            None => find(cs@.subrange(from as int, to as int), pat@) is None,
        },
{
    let ghost s = cs@.subrange(from as int, to as int);
    let mut i: usize = from;
    assert(s.skip(0) =~= s);
    loop
        invariant
            from <= i <= to <= cs@.len(),
            s == cs@.subrange(from as int, to as int),
            match find(s.skip(i - from), pat@) {
                Some(k) => find(s, pat@) == Some(k + (i - from)),
                None => find(s, pat@) is None,
            },
        decreases to - i,
    {
        let here: bool = pat.len() <= to - i && is_prefix_at(cs, i, pat);
        proof {
            let rest = s.skip(i - from);
            if pat@.len() <= to - i {
                assert(cs@.skip(i as int).subrange(0, pat@.len() as int) =~= rest.subrange(
                    0,
                    pat@.len() as int,
                ));
            }
            assert(here == pat@.is_prefix_of(rest));
        }
        if here {
            return Some(i);
        }
        if i == to {
            return None;
        }
        proof {
            assert(s.skip(i - from).drop_first() =~= s.skip(i + 1 - from));
        }
        i = i + 1;
    }
}

/// Whether `c` has the Unicode property `White_Space`.
pub open spec fn is_space(c: char) -> bool {
    let n = c as u32;
    ||| 9 <= n <= 13
    ||| n == 0x20
    ||| n == 0x85
    ||| n == 0xa0
    ||| n == 0x1680
    ||| 0x2000 <= n <= 0x200a
    ||| n == 0x2028
    ||| n == 0x2029
    ||| n == 0x202f
    ||| n == 0x205f
    ||| n == 0x3000
}

/// Whether `c` has the Unicode property `White_Space`.
pub fn is_whitespace(c: char) -> (yes: bool)
    ensures
        yes == is_space(c),
{
    let n: u32 = c as u32;
    (9 <= n && n <= 13) || n == 0x20 || n == 0x85 || n == 0xa0 || n == 0x1680 || (0x2000 <= n && n
        <= 0x200a) || n == 0x2028 || n == 0x2029 || n == 0x202f || n == 0x205f || n == 0x3000
}

/// `s` without the whitespace at its start.
pub open spec fn trim_start(s: Seq<char>) -> Seq<char>
    decreases s.len(),
{
    if s.len() > 0 && is_space(s[0]) {
        trim_start(s.drop_first())
    } else {
        s
    }
}

/// `s` without the whitespace at its end.
pub open spec fn trim_end(s: Seq<char>) -> Seq<char>
    decreases s.len(),
{
    if s.len() > 0 && is_space(s.last()) {
        trim_end(s.drop_last())
    } else {
        s
    }
}

/// `s` without the whitespace at its start and at its end.
pub open spec fn trim(s: Seq<char>) -> Seq<char> {
    trim_end(trim_start(s))
}

/// Where `cs[from..to]`, without the whitespace around it, starts and ends in `cs`.
pub fn trim_range(cs: &Vec<char>, from: usize, to: usize) -> (r: (usize, usize))
    requires
        from <= to <= cs@.len(),
    ensures
        from <= r.0 <= r.1 <= to,
        cs@.subrange(r.0 as int, r.1 as int) == trim(cs@.subrange(from as int, to as int)),
{
    let mut a: usize = from;
    let ghost s = cs@.subrange(from as int, to as int);
    while a < to && is_whitespace(cs[a])
        invariant
            from <= a <= to <= cs@.len(),
            trim_start(cs@.subrange(a as int, to as int)) == trim_start(s),
        decreases to - a,
    {
        assert(cs@.subrange(a as int, to as int).drop_first() =~= cs@.subrange(a + 1, to as int));
        a = a + 1;
    }
    let ghost t = cs@.subrange(a as int, to as int);
    assert(trim_start(s) == t);
    let mut b: usize = to;
    while b > a && is_whitespace(cs[b - 1])
        invariant
            a <= b <= to <= cs@.len(),
            trim_end(cs@.subrange(a as int, b as int)) == trim_end(t),
        decreases b - a,
    {
        assert(cs@.subrange(a as int, b as int).drop_last() =~= cs@.subrange(a as int, b - 1));
        b = b - 1;
    }
    (a, b)
}

/// `s` without the whitespace around it.
pub fn trimmed(s: &str) -> (t: &str)
    ensures
        t@ == trim(s@),
{
    let cs = chars_of(s);
    assert(cs@.subrange(0, cs@.len() as int) =~= s@);
    let (a, b) = trim_range(&cs, 0, cs.len());
    s.substring_char(a, b)
}

/// The lines of `s`: the stretches between its line feeds.
pub open spec fn lines(s: Seq<char>) -> Seq<Seq<char>>
    decreases s.len(),
    via lines_decreases
{
    match find(s, seq!['\n']) {
        Some(i) => seq![s.take(i)] + lines(s.skip(i + 1)),
        None => seq![s],
    }
}

#[via_fn]
proof fn lines_decreases(s: Seq<char>) {
    lemma_find_bounds(s, seq!['\n']);
}

/// Where the lines of `cs` start and end.
pub fn line_ranges(cs: &Vec<char>) -> (r: Vec<(usize, usize)>)
    ensures
        r@.len() == lines(cs@).len(),
        forall|k: int|
            #![trigger r@[k]]
            0 <= k < r@.len() ==> r@[k].0 <= r@[k].1 <= cs@.len() && cs@.subrange(
                r@[k].0 as int,
                r@[k].1 as int,
            ) == lines(cs@)[k],
{
    let mut r: Vec<(usize, usize)> = Vec::new();
    let feed: Vec<char> = vec!['\n'];
    assert(feed@ =~= seq!['\n']);
    let mut from: usize = 0;
    let ghost mut done: Seq<Seq<char>> = seq![];
    assert(cs@.skip(0) =~= cs@);
    assert(done + lines(cs@) =~= lines(cs@));
    loop
        invariant
            feed@ == seq!['\n'],
            from <= cs@.len(),
            done.len() == r@.len(),
            done + lines(cs@.skip(from as int)) == lines(cs@),
            forall|k: int|
                #![trigger r@[k]]
                0 <= k < r@.len() ==> r@[k].0 <= r@[k].1 <= cs@.len() && cs@.subrange(
                    r@[k].0 as int,
                    r@[k].1 as int,
                ) == done[k],
        decreases cs@.len() - from,
    {
        let ghost rest = cs@.skip(from as int);
        assert(cs@.subrange(from as int, cs@.len() as int) =~= rest);
        match find_in(cs, from, cs.len(), &feed) {
            Some(i) => {
                r.push((from, i));
                proof {
                    let line = cs@.subrange(from as int, i as int);
                    assert(rest.take(i - from) =~= line);
                    assert(rest.skip(i - from + 1) =~= cs@.skip(i + 1));
                    assert(done + (seq![line] + lines(cs@.skip(i + 1))) =~= done.push(line) + lines(
                        cs@.skip(i + 1),
                    ));
                    done = done.push(line);
                }
                from = i + 1;
            },
            None => {
                r.push((from, cs.len()));
                proof {
                    done = done.push(rest);
                    assert(done =~= lines(cs@));
                }
                return r;
            },
        }
    }
}

/// The decimal digits of `n`.
pub open spec fn decimal(n: nat) -> Seq<char>
    decreases n,
{
    if n < 10 {
        seq![digit(n)]
    } else {
        decimal(n / 10).push(digit(n % 10))
    }
}

/// The character of a number below ten.
pub open spec fn digit(n: nat) -> char {
    (48 + n) as u8 as char
}

fn digit_str(n: usize) -> (s: &'static str)
    requires
        n < 10,
    ensures
        s@ == seq![digit(n as nat)],
{
    proof {
        reveal_strlit("0");
        reveal_strlit("1");
        reveal_strlit("2");
        reveal_strlit("3");
        reveal_strlit("4");
        reveal_strlit("5");
        reveal_strlit("6");
        reveal_strlit("7");
        reveal_strlit("8");
        reveal_strlit("9");
    }
    let s = if n == 0 {
        "0"
    } else if n == 1 {
        "1"
    } else if n == 2 {
        "2"
    } else if n == 3 {
        "3"
    } else if n == 4 {
        "4"
    } else if n == 5 {
        "5"
    } else if n == 6 {
        "6"
    } else if n == 7 {
        "7"
    } else if n == 8 {
        "8"
    } else {
        "9"
    };
    assert(s@ =~= seq![digit(n as nat)]);
    s
}

/// `n` in decimal.
pub fn decimal_string(n: usize) -> (s: String)
    ensures
        s@ == decimal(n as nat),
    decreases n,
{
    if n < 10 {
        String::from_str(digit_str(n))
    } else {
        let mut s = decimal_string(n / 10);
        s.append(digit_str(n % 10));
        assert(s@ =~= decimal(n as nat));
        s
    }
}

/// Decode UTF-8 bytes, as `String::from_utf8` does: the text when the bytes are
/// well-formed UTF-8, and nothing otherwise.
#[verifier::external_body]
pub(crate) fn string_from_utf8(bytes: Vec<u8>) -> (s: Option<String>)
    ensures
        s is Some <==> valid_utf8(bytes@),
        s matches Some(t) ==> t@ == decode_utf8(bytes@),
{
    String::from_utf8(bytes).ok()
}

/// The text that bytes say when every malformed stretch is replaced.
pub uninterp spec fn lossy_utf8(bytes: Seq<u8>) -> Seq<char>;

/// Decode bytes as `String::from_utf8_lossy` does: well-formed UTF-8 gives its
/// text, and malformed stretches are replaced. How they are replaced depends on
/// the bytes alone and is not stated further.
#[verifier::external_body]
pub(crate) fn string_from_utf8_lossy(bytes: &[u8]) -> (s: String)
    ensures
        s@ == lossy_utf8(bytes@),
        valid_utf8(bytes@) ==> s@ == decode_utf8(bytes@),
{
    String::from_utf8_lossy(bytes).into_owned()
}

/// What texts say.
pub open spec fn texts_view(texts: Seq<String>) -> Seq<Seq<char>> {
    texts.map_values(|t: String| t@)
}

/// The UTF-8 bytes of a text.
pub fn utf8_bytes(s: &str) -> (bytes: Vec<u8>)
    ensures
        bytes@ == encode_utf8(s@),
{
    s.as_bytes_vec()
}

/// Folding changes the letters `A` to `Z` to those 32 places behind them, `a` to
/// `z`, and no other character; it keeps the number of characters and is done
/// once.
pub proof fn law_folding(s: Seq<char>, i: int)
    requires
        0 <= i < s.len(),
    ensures
        lowercase(s).len() == s.len(),
        65 <= s[i] as int <= 90 ==> lowercase(s)[i] as int == s[i] as int + 32,
        !(65 <= s[i] as int <= 90) ==> lowercase(s)[i] == s[i],
        lowercase(lowercase(s)) == lowercase(s),
{
    assert(lowercase(lowercase(s)) =~= lowercase(s));
}

/// A text starts with a prefix up to case exactly if it is as long and its first
/// characters fold to the prefix.
pub proof fn law_folded_prefix(s: Seq<char>, prefix: Seq<char>)
    ensures
        starts_with_folded(s, prefix) <==> prefix.len() <= s.len() && forall|i: int|
            0 <= i < prefix.len() ==> lowercase(s)[i] == #[trigger] prefix[i],
{
    let l = lowercase(s);
    if prefix.len() <= s.len() && forall|i: int|
        0 <= i < prefix.len() ==> l[i] == #[trigger] prefix[i] {
        assert(l.subrange(0, prefix.len() as int) =~= prefix);
    }
    if starts_with_folded(s, prefix) {
        assert forall|i: int| 0 <= i < prefix.len() implies l[i] == #[trigger] prefix[i] by {
            assert(l.subrange(0, prefix.len() as int)[i] == prefix[i]);
        }
    }
}

/// Where a pattern is found, it stands, and it stands nowhere before; it is found
/// wherever it stands at all.
pub proof fn law_find(s: Seq<char>, pat: Seq<char>, j: int)
    requires
        0 <= j,
        j + pat.len() <= s.len(),
        s.subrange(j, j + pat.len()) == pat,
    ensures
        find(s, pat) matches Some(i) && 0 <= i <= j && s.subrange(i, i + pat.len()) == pat,
    decreases s.len(),
{
    lemma_find_bounds(s, pat);
    if !pat.is_prefix_of(s) {
        if j == 0 {
            assert(s.subrange(0, pat.len() as int) =~= pat);
        } else {
            let tail = s.drop_first();
            assert(tail.subrange(j - 1, j - 1 + pat.len()) =~= s.subrange(j, j + pat.len()));
            law_find(tail, pat, j - 1);
        }
    }
}

/// Which characters are whitespace: those with the Unicode property.
pub proof fn law_whitespace(c: char)
    ensures
        is_space(c) <==> {
            let n = c as u32;
            n == 0x09 || n == 0x0a || n == 0x0b || n == 0x0c || n == 0x0d || n == 0x20 || n == 0x85
                || n == 0xa0 || n == 0x1680 || n == 0x2000 || n == 0x2001 || n == 0x2002 || n
                == 0x2003 || n == 0x2004 || n == 0x2005 || n == 0x2006 || n == 0x2007 || n == 0x2008
                || n == 0x2009 || n == 0x200a || n == 0x2028 || n == 0x2029 || n == 0x202f || n
                == 0x205f || n == 0x3000
        },
{
}

/// Trimming takes the whitespace off both ends of a text, all of it, and nothing
/// else.
pub proof fn law_trimming(before: Seq<char>, core: Seq<char>, behind: Seq<char>)
    requires
        forall|i: int| 0 <= i < before.len() ==> is_space(#[trigger] before[i]),
        forall|i: int| 0 <= i < behind.len() ==> is_space(#[trigger] behind[i]),
        core.len() > 0 ==> !is_space(core[0]) && !is_space(core.last()),
    ensures
        trim(before + core + behind) == core,
{
    if core.len() > 0 {
        lemma_trim_start(before, core + behind);
        assert(before + core + behind =~= before + (core + behind));
        assert((core + behind)[0] == core[0]);
        lemma_trim_end(core, behind);
    } else {
        let all = before + core + behind;
        lemma_trim_start(all, core);
        assert(all + core =~= all);
        assert forall|i: int| 0 <= i < all.len() implies is_space(#[trigger] all[i]) by {
            if i < before.len() {
                assert(all[i] == before[i]);
            } else {
                assert(all[i] == behind[i - before.len()]);
            }
        }
        assert(trim_end(core) == core);
    }
}

proof fn lemma_trim_start(spaces: Seq<char>, rest: Seq<char>)
    requires
        forall|i: int| 0 <= i < spaces.len() ==> is_space(#[trigger] spaces[i]),
        rest.len() > 0 ==> !is_space(rest[0]),
    ensures
        trim_start(spaces + rest) == rest,
    decreases spaces.len(),
{
    let all = spaces + rest;
    if spaces.len() > 0 {
        let tail = spaces.drop_first();
        assert(is_space(spaces[0]));
        assert forall|i: int| 0 <= i < tail.len() implies is_space(#[trigger] tail[i]) by {
            assert(tail[i] == spaces[i + 1]);
        }
        lemma_trim_start(tail, rest);
        assert(all.drop_first() =~= tail + rest);
    } else {
        assert(all =~= rest);
    }
}

proof fn lemma_trim_end(rest: Seq<char>, spaces: Seq<char>)
    requires
        forall|i: int| 0 <= i < spaces.len() ==> is_space(#[trigger] spaces[i]),
        rest.len() > 0 ==> !is_space(rest.last()),
    ensures
        trim_end(rest + spaces) == rest,
    decreases spaces.len(),
{
    let all = rest + spaces;
    if spaces.len() > 0 {
        let init = spaces.drop_last();
        assert(is_space(spaces[spaces.len() - 1]));
        assert forall|i: int| 0 <= i < init.len() implies is_space(#[trigger] init[i]) by {
            assert(init[i] == spaces[i]);
        }
        lemma_trim_end(rest, init);
        assert(all.drop_last() =~= rest + init);
        assert(all.last() == spaces.last());
    } else {
        assert(all =~= rest);
    }
}

/// Lines end at line feeds: a text without one is one line, and a text in front
/// of one is a line of its own.
pub proof fn law_lines(line: Seq<char>, rest: Seq<char>)
    requires
        !line.contains('\n'),
    ensures
        lines(line) == seq![line],
        lines(line + seq!['\n'] + rest) == seq![line] + lines(rest),
{
    lemma_find_absent(line, '\n');
    let all = line + seq!['\n'] + rest;
    let n = line.len() as int;
    assert(all.skip(n).subrange(0, 1) =~= seq!['\n']);
    assert forall|j: int| 0 <= j < n implies !seq!['\n'].is_prefix_of(#[trigger] all.skip(j)) by {
        assert(all.skip(j).subrange(0, 1)[0] == line[j]);
    }
    lemma_find_at(all, seq!['\n'], n);
    assert(all.take(n) =~= line);
    assert(all.skip(n + 1) =~= rest);
}

/// The number that decimal digits say.
pub open spec fn decimal_value(text: Seq<char>) -> int
    decreases text.len(),
{
    if text.len() == 0 {
        0
    } else {
        decimal_value(text.drop_last()) * 10 + (text.last() as int - '0' as int)
    }
}

/// A number in decimal says that number, in digits only, and has no leading zero.
pub proof fn law_decimal(n: nat)
    ensures
        decimal_value(decimal(n)) == n,
        decimal(n).len() > 0,
        decimal(n)[0] == '0' ==> decimal(n).len() == 1,
        forall|i: int| 0 <= i < decimal(n).len() ==> '0' <= #[trigger] decimal(n)[i] <= '9',
    decreases n,
{
    let text = decimal(n);
    if n < 10 {
        assert(text.drop_last() =~= Seq::<char>::empty());
        assert(decimal_value(text.drop_last()) == 0);
    } else {
        law_decimal(n / 10);
        assert(text.drop_last() =~= decimal(n / 10));
        if text[0] == '0' {
            assert(decimal(n / 10)[0] == '0');
            let lead = decimal(n / 10);
            assert(lead.drop_last() =~= Seq::<char>::empty());
            assert(decimal_value(lead.drop_last()) == 0);
        }
    }
}

/// A line feed parts two texts, whatever they are: the lines are those of the
/// first and then those of the second.
pub proof fn law_lines_of_both_parts(front: Seq<char>, back: Seq<char>)
    ensures
        lines(front + seq!['\n'] + back) == lines(front) + lines(back),
    decreases front.len(),
{
    lemma_find_is_first(front, '\n');
    match find(front, seq!['\n']) {
        Some(i) => {
            let line = front.take(i);
            let rest = front.skip(i + 1);
            assert(front =~= line + seq!['\n'] + rest);
            law_lines(line, rest);
            law_lines(line, rest + seq!['\n'] + back);
            law_lines_of_both_parts(rest, back);
            assert(front + seq!['\n'] + back =~= line + seq!['\n'] + (rest + seq!['\n'] + back));
            assert(seq![line] + (lines(rest) + lines(back)) =~= seq![line] + lines(rest) + lines(
                back,
            ));
        },
        None => {
            law_lines(front, back);
        },
    }
}

} // verus!
