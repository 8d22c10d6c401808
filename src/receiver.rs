use vstd::prelude::*;

use crate::config::Config;

verus! {

/// What becomes of a file of a duplicate group.
#[derive(Debug, Clone, Copy, PartialEq, Eq, Structural)]
pub enum Mark {
    Purge,
    Keep,
}

/// The files of a group, each with its mark.
pub type DupeGroup = Vec<(String, Mark)>;

/// Gives every file of the group the mark `mark`.
pub fn mark_group(files: &mut DupeGroup, mark: Mark)
    ensures
        final(files)@.len() == old(files)@.len(),
        forall|i: int|
            0 <= i < final(files)@.len() ==> #[trigger] final(files)@[i] == (old(files)@[i].0, mark),
{
    let mut i: usize = 0;
    while i < files.len()
        invariant
            0 <= i <= files@.len(),
            files@.len() == old(files)@.len(),
            forall|j: int| 0 <= j < i ==> #[trigger] files@[j] == (old(files)@[j].0, mark),
            forall|j: int| i <= j < files@.len() ==> #[trigger] files@[j] == old(files)@[j],
        decreases files@.len() - i,
    {
        files[i].1 = mark;
        i = i + 1;
    }
}

/// The line-based consumer of duplicate groups: it shows each group and
/// asks which files to keep.
pub struct BasicReceiver {
    pub config: Config,
}


/// Unicode's White_Space characters.
pub open spec fn is_white_space(c: char) -> bool {
    let v = c as u32;
    ||| 0x9 <= v <= 0xd
    ||| v == 0x20
    ||| v == 0x85
    ||| v == 0xa0
    ||| v == 0x1680
    ||| 0x2000 <= v <= 0x200a
    ||| v == 0x2028
    ||| v == 0x2029
    ||| v == 0x202f
    ||| v == 0x205f
    ||| v == 0x3000
}

/// Choices in an answer are separated by white space and commas.
pub open spec fn is_separator(c: char) -> bool {
    c == ',' || is_white_space(c)
}

/// The choices of an answer: its maximal runs of characters that are not
/// separators, in order.
pub open spec fn tokens(s: Seq<char>) -> Seq<Seq<char>>
    decreases s.len(),
{
    if s.len() == 0 {
        Seq::empty()
    } else {
        let t = tokens(s.drop_last());
        let c = s.last();
        if is_separator(c) {
            t
        } else if s.len() > 1 && !is_separator(s[s.len() - 2]) {
            t.update(t.len() - 1, t.last().push(c))
        } else {
            t.push(seq![c])
        }
    }
}

pub open spec fn is_digit(c: char) -> bool {
    48 <= (c as u32) <= 57
}

/// The number that a sequence of decimal digits writes.
pub open spec fn digits_value(d: Seq<char>) -> nat
    decreases d.len(),
{
    if d.len() == 0 {
        0
    } else {
        10 * digits_value(d.drop_last()) + ((d.last() as u32) - 48) as nat
    }
}

/// Every character of `d` is a decimal digit.
pub open spec fn all_digits(d: Seq<char>) -> bool {
    forall|i: int| 0 <= i < d.len() ==> is_digit(#[trigger] d[i])
}

/// The unsigned number that a choice writes: an optional `+`, then one
/// or more decimal digits, with a value that fits in a `usize`.
pub open spec fn index_value(t: Seq<char>) -> Option<nat> {
    let d = if t.len() > 0 && t[0] == '+' {
        t.drop_first()
    } else {
        t
    };
    if d.len() > 0 && all_digits(d) && digits_value(d) <= usize::MAX {
        Some(digits_value(d))
    } else {
        None
    }
}

/// The marks of a group.
pub open spec fn marks(files: Seq<(String, Mark)>) -> Seq<Mark> {
    files.map_values(|e: (String, Mark)| e.1)
}

/// What one choice does to the marks: `none` purges all, `all` keeps all,
/// a number from 1 to the group's size keeps that file. Anything else
/// (`quit` included) does nothing.
pub open spec fn apply_choice(t: Seq<char>, m: Seq<Mark>) -> Option<Seq<Mark>> {
    if t == seq!['n', 'o', 'n', 'e'] {
        Some(Seq::new(m.len(), |i: int| Mark::Purge))
    } else if t == seq!['a', 'l', 'l'] {
        Some(Seq::new(m.len(), |i: int| Mark::Keep))
    } else {
        match index_value(t) {
            Some(n) => if 1 <= n <= m.len() {
                Some(m.update(n - 1, Mark::Keep))
            } else {
                None
            },
            None => None,
        }
    }
}

/// The marks after the choices `ts`, and whether any of them took effect.
pub open spec fn apply_choices(ts: Seq<Seq<char>>, m: Seq<Mark>) -> (Seq<Mark>, bool)
    decreases ts.len(),
{
    if ts.len() == 0 {
        (m, false)
    } else {
        let (before, done) = apply_choices(ts.drop_last(), m);
        match apply_choice(ts.last(), before) {
            Some(after) => (after, true),
            None => (before, done),
        }
    }
}

/// The characters of `s` from `i` on are decimal digits.
fn all_digits_from(t: &Vec<char>, i: usize) -> (r: bool)
    requires
        i <= t@.len(),
    ensures
        r == (forall|k: int| i <= k < t@.len() ==> is_digit(#[trigger] t@[k])),
{
    let mut k = i;
    while k < t.len()
        invariant
            i <= k <= t@.len(),
            forall|j: int| i <= j < k ==> is_digit(#[trigger] t@[j]),
        decreases t@.len() - k,
    {
        let c = t[k] as u32;
        if !(48 <= c && c <= 57) {
            return false;
        }
        k = k + 1;
    }
    true
}

proof fn lemma_digits_value_grows(d: Seq<char>, k: int)
    requires
        0 <= k <= d.len(),
        forall|i: int| 0 <= i < d.len() ==> is_digit(#[trigger] d[i]),
    ensures
        digits_value(d.take(k)) <= digits_value(d),
    decreases d.len() - k,
{
    if k < d.len() {
        lemma_digits_value_grows(d, k + 1);
        assert(d.take(k + 1).drop_last() =~= d.take(k));
        assert(is_digit(d[k]));
        assert(d.take(k + 1).last() == d[k]);
        let a = digits_value(d.take(k));
        assert(digits_value(d.take(k + 1)) == 10 * a + ((d[k] as u32) - 48) as nat);
    } else {
        assert(d.take(k) =~= d);
    }
}

proof fn lemma_index_value(t: Seq<char>, d: Seq<char>)
    requires
        d == (if t.len() > 0 && t[0] == '+' {
            t.drop_first()
        } else {
            t
        }),
    ensures
        index_value(t) == (if d.len() > 0 && all_digits(d) && digits_value(d) <= usize::MAX {
            Some(digits_value(d))
        } else {
            None
        }),
{
}

/// The number that a choice writes, where it writes one that fits.
fn parse_index(t: &Vec<char>) -> (r: Option<usize>)
    ensures
        r matches Some(v) ==> index_value(t@) == Some(v as nat),
        r is None ==> index_value(t@) is None,
{
    let start: usize = if t.len() > 0 && t[0] == '+' {
        1
    } else {
        0
    };
    let ghost d = t@.subrange(start as int, t@.len() as int);
    proof {
        if t@.len() > 0 && t@[0] == '+' {
            assert(d =~= t@.drop_first());
        } else {
            assert(d =~= t@);
        }
        lemma_index_value(t@, d);
    }
    if start >= t.len() || !all_digits_from(t, start) {
        proof {
            if start < t@.len() {
                let k = choose|k: int| start <= k < t@.len() && !is_digit(#[trigger] t@[k]);
                assert(!is_digit(d[k - start]));
                assert(!all_digits(d));
            }
        }
        return None;
    }
    proof {
        assert forall|i: int| 0 <= i < d.len() implies is_digit(#[trigger] d[i]) by {
            assert(d[i] == t@[i + start]);
        }
    }
    let mut v: usize = 0;
    let mut k = start;
    while k < t.len()
        invariant
            start <= k <= t@.len(),
            d == t@.subrange(start as int, t@.len() as int),
            d == (if t@.len() > 0 && t@[0] == '+' {
                t@.drop_first()
            } else {
                t@
            }),
            forall|i: int| 0 <= i < d.len() ==> is_digit(#[trigger] d[i]),
            v as nat == digits_value(d.take(k - start)),
        decreases t@.len() - k,
    {
        proof {
            assert(d.take(k - start + 1).drop_last() =~= d.take(k - start));
            assert(d[k - start] == t@[k as int]);
            assert(is_digit(d[k - start]));
            assert(d.take(k - start + 1).last() == d[k - start]);
        }
        let digit = (t[k] as u32 - 48) as u8 as usize;
        match v.checked_mul(10) {
            None => {
                proof {
                    lemma_digits_value_grows(d, k - start + 1);
                    lemma_index_value(t@, d);
                }
                return None;
            },
            Some(w) => match w.checked_add(digit) {
                None => {
                    proof {
                        lemma_digits_value_grows(d, k - start + 1);
                        lemma_index_value(t@, d);
                    }
                    return None;
                },
                Some(x) => {
                    v = x;
                },
            },
        }
        k = k + 1;
    }
    proof {
        assert(d.take(d.len() as int) =~= d);
    }
    Some(v)
}

/// Applies one choice to the group's marks; true where it took effect.
fn apply_choice_to(t: &Vec<char>, files: &mut DupeGroup) -> (acted: bool)
    ensures
        final(files)@.len() == old(files)@.len(),
        forall|i: int|
            0 <= i < final(files)@.len() ==> (#[trigger] final(files)@[i]).0 == old(files)@[i].0,
        match apply_choice(t@, marks(old(files)@)) {
            Some(m) => acted && marks(final(files)@) == m,
            None => !acted && marks(final(files)@) == marks(old(files)@),
        },
{
    let n = t.len();
    if n == 4 && t[0] == 'n' && t[1] == 'o' && t[2] == 'n' && t[3] == 'e' {
        proof {
            assert(t@ =~= seq!['n', 'o', 'n', 'e']);
        }
        mark_group(files, Mark::Purge);
        proof {
            assert(marks(files@) =~= Seq::new(old(files)@.len(), |i: int| Mark::Purge));
        }
        return true;
    }
    if n == 3 && t[0] == 'a' && t[1] == 'l' && t[2] == 'l' {
        proof {
            assert(t@ =~= seq!['a', 'l', 'l']);
            assert(t@ != seq!['n', 'o', 'n', 'e']);
        }
        mark_group(files, Mark::Keep);
        proof {
            assert(marks(files@) =~= Seq::new(old(files)@.len(), |i: int| Mark::Keep));
        }
        return true;
    }
    proof {
        if t@ == seq!['n', 'o', 'n', 'e'] {
            assert(t@.len() == 4 && t@[0] == 'n' && t@[1] == 'o' && t@[2] == 'n' && t@[3] == 'e');
        }
        if t@ == seq!['a', 'l', 'l'] {
            assert(t@.len() == 3 && t@[0] == 'a' && t@[1] == 'l' && t@[2] == 'l');
        }
    }
    match parse_index(t) {
        Some(v) => {
            if 1 <= v && v <= files.len() {
                files[v - 1].1 = Mark::Keep;
                proof {
                    assert(marks(files@) =~= marks(old(files)@).update(v - 1, Mark::Keep));
                }
                true
            } else {
                false
            }
        },
        None => false,
    }
}

proof fn lemma_tokens_step(s: Seq<char>, i: int)
    requires
        0 <= i < s.len(),
    ensures
        tokens(s.take(i + 1)) == if is_separator(s[i]) {
            tokens(s.take(i))
        } else if i > 0 && !is_separator(s[i - 1]) {
            tokens(s.take(i)).update(tokens(s.take(i)).len() - 1, tokens(s.take(i)).last().push(s[i]))
        } else {
            tokens(s.take(i)).push(seq![s[i]])
        },
{
    assert(s.take(i + 1).drop_last() =~= s.take(i));
}

proof fn lemma_tokens_nonempty(s: Seq<char>, i: int)
    requires
        0 < i <= s.len(),
        !is_separator(s[i - 1]),
    ensures
        tokens(s.take(i)).len() > 0,
    decreases i,
{
    lemma_tokens_step(s, i - 1);
    if i > 1 && !is_separator(s[i - 2]) {
        lemma_tokens_nonempty(s, i - 1);
    }
}

/// Whether `c` separates choices.
fn is_separator_char(c: char) -> (r: bool)
    ensures
        r == is_separator(c),
{
    let v = c as u32;
    c == ',' || (0x9 <= v && v <= 0xd) || v == 0x20 || v == 0x85 || v == 0xa0 || v == 0x1680 || (
    0x2000 <= v && v <= 0x200a) || v == 0x2028 || v == 0x2029 || v == 0x202f || v == 0x205f || v
        == 0x3000
}

/// The choices of an answer.
fn tokenize(buffer: &str) -> (r: Vec<Vec<char>>)
    ensures
        r@.len() == tokens(buffer@).len(),
        forall|k: int| 0 <= k < r@.len() ==> (#[trigger] r@[k])@ == tokens(buffer@)[k],
{
    let ghost s = buffer@;
    let n = buffer.unicode_len();
    let mut out: Vec<Vec<char>> = Vec::new();
    let mut cur: Vec<char> = Vec::new();
    let mut i: usize = 0;
    while i < n
        invariant
            n as nat == s.len(),
            s == buffer@,
            0 <= i <= n,
            cur@.len() > 0 <==> (i > 0 && !is_separator(s[i - 1])),
            cur@.len() > 0 ==> {
                &&& tokens(s.take(i as int)).len() == out@.len() + 1
                &&& tokens(s.take(i as int)).last() == cur@
            },
            cur@.len() == 0 ==> tokens(s.take(i as int)).len() == out@.len(),
            forall|k: int| 0 <= k < out@.len() ==> (#[trigger] out@[k])@ == tokens(s.take(i as int))[k],
        decreases n - i,
    {
        let c = buffer.get_char(i);
        let ghost ts = tokens(s.take(i as int));
        proof {
            lemma_tokens_step(s, i as int);
            if i > 0 && !is_separator(s[i - 1]) {
                lemma_tokens_nonempty(s, i as int);
            }
        }
        if is_separator_char(c) {
            if cur.len() > 0 {
                let done_token = cur;
                cur = Vec::new();
                out.push(done_token);
            }
        } else {
            cur.push(c);
            proof {
                if ts.len() > out@.len() {
                    assert(cur@ =~= ts.last().push(c));
                } else {
                    assert(cur@ =~= seq![c]);
                }
            }
        }
        i = i + 1;
    }
    if cur.len() > 0 {
        out.push(cur);
    }
    proof {
        assert(s.take(n as int) =~= s);
    }
    out
}

impl BasicReceiver {
    pub fn new(config: Config) -> (r: Self)
        ensures
            r.config == config,
    {
        BasicReceiver { config }
    }

    /// Applies the choices of an answer to the group's marks, in order;
    /// true where any of them took effect. The names stay as they are.
    pub fn process_input(buffer: &str, files: &mut DupeGroup) -> (done: bool)
        ensures
            final(files)@.len() == old(files)@.len(),
            forall|i: int|
                0 <= i < final(files)@.len() ==> (#[trigger] final(files)@[i]).0 == old(
                    files,
                )@[i].0,
            (marks(final(files)@), done) == apply_choices(tokens(buffer@), marks(old(files)@)),
    {
        let ghost m0 = marks(files@);
        let choices = tokenize(buffer);
        let ghost ts = tokens(buffer@);
        let mut done = false;
        let mut i: usize = 0;
        while i < choices.len()
            invariant
                0 <= i <= choices@.len(),
                choices@.len() == ts.len(),
                forall|k: int| 0 <= k < ts.len() ==> (#[trigger] choices@[k])@ == ts[k],
                files@.len() == old(files)@.len(),
                forall|k: int|
                    0 <= k < files@.len() ==> (#[trigger] files@[k]).0 == old(files)@[k].0,
                (marks(files@), done) == apply_choices(ts.take(i as int), m0),
            decreases choices@.len() - i,
        {
            proof {
                assert(ts.take(i + 1).drop_last() =~= ts.take(i as int));
                assert(ts.take(i + 1).last() == choices@[i as int]@);
            }
            if apply_choice_to(&choices[i], files) {
                done = true;
            }
            i = i + 1;
        }
        proof {
            assert(ts.take(i as int) =~= ts);
        }
        done
    }
    /// The names of the files marked for purging, in order.
    pub fn files_to_purge(files: &DupeGroup) -> (r: Vec<String>)
        ensures
            r@ == files@.filter(|e: (String, Mark)| e.1 == Mark::Purge).map_values(
                |e: (String, Mark)| e.0,
            ),
    {
        let mut out: Vec<String> = Vec::new();
        let mut i: usize = 0;
        while i < files.len()
            invariant
                0 <= i <= files@.len(),
                out@ == files@.take(i as int).filter(|e: (String, Mark)| e.1 == Mark::Purge).map_values(
                    |e: (String, Mark)| e.0,
                ),
            decreases files@.len() - i,
        {
            proof {
                reveal(Seq::filter);
                assert(files@.take(i + 1).drop_last() =~= files@.take(i as int));
            }
            if files[i].1 == Mark::Purge {
                let name = files[i].0.clone();
                out.push(name);
                proof {
                    let f = |e: (String, Mark)| e.1 == Mark::Purge;
                    let g = |e: (String, Mark)| e.0;
                    assert(files@.take(i + 1).filter(f) == files@.take(i as int).filter(f).push(
                        files@[i as int],
                    ));
                    assert(files@.take(i + 1).filter(f).map_values(g) =~= files@.take(
                        i as int,
                    ).filter(f).map_values(g).push(files@[i as int].0));
                }
            }
            i = i + 1;
        }
        proof {
            assert(files@.take(i as int) =~= files@);
        }
        out
    }

    /// The unit in which a size is shown: "byte" for one, "bytes" otherwise.
    pub fn size_unit(size: u64) -> (r: &'static str)
        ensures
            r@ == if size == 1 {
                "byte"@
            } else {
                "bytes"@
            },
    {
        if size == 1 {
            "byte"
        } else {
            "bytes"
        }
    }

    /// Whether one of the choices of an answer is `quit`.
    pub fn requests_quit(buffer: &str) -> (r: bool)
        ensures
            r == tokens(buffer@).contains(seq!['q', 'u', 'i', 't']),
    {
        let choices = tokenize(buffer);
        let ghost ts = tokens(buffer@);
        let ghost quit = seq!['q', 'u', 'i', 't'];
        let mut found = false;
        let mut i: usize = 0;
        while i < choices.len()
            invariant
                0 <= i <= choices@.len(),
                choices@.len() == ts.len(),
                forall|k: int| 0 <= k < ts.len() ==> (#[trigger] choices@[k])@ == ts[k],
                quit == seq!['q', 'u', 'i', 't'],
                found == ts.take(i as int).contains(quit),
            decreases choices@.len() - i,
        {
            let t = &choices[i];
            let is_quit = t.len() == 4 && t[0] == 'q' && t[1] == 'u' && t[2] == 'i' && t[3] == 't';
            proof {
                assert(ts.take(i + 1) =~= ts.take(i as int).push(t@));
                assert(is_quit == (t@ == quit)) by {
                    if is_quit {
                        assert(t@ =~= quit);
                    }
                }
                lemma_contains_push(ts.take(i as int), t@, quit);
            }
            if is_quit {
                found = true;
            }
            i = i + 1;
        }
        proof {
            assert(ts.take(i as int) =~= ts);
        }
        found
    }
}

proof fn lemma_contains_push(ts: Seq<Seq<char>>, t: Seq<char>, w: Seq<char>)
    ensures
        ts.push(t).contains(w) == (ts.contains(w) || t == w),
{
    if ts.contains(w) {
        let k = choose|k: int| 0 <= k < ts.len() && ts[k] == w;
        assert(ts.push(t)[k] == w);
    }
    if t == w {
        assert(ts.push(t)[ts.len() as int] == w);
    }
    if ts.push(t).contains(w) {
        let k = choose|k: int| 0 <= k < ts.push(t).len() && ts.push(t)[k] == w;
        if k < ts.len() {
            assert(ts[k] == w);
        }
    }
}

} // verus!
