//! Warnings for unrecognised Aquascope fence specifiers.
//!
//! A misspelt specifier is silently ignored: `souldFail` simply does not
//! match `shouldFail`, so the block renders without the marker and nothing
//! says why. These checks turn that into a warning naming the line.

use vstd::prelude::*;
use crate::lines::{lines, lines_of, split_on, split_range, views};
use crate::text::{
    blank_range, chars_of, decimal, is_blank, push_all, push_decimal, push_range, push_str,
    string_of, trim, trim_range, trim_start, utf8_len, utf8_width_exec,
};

verus! {

/// The operations that may appear before the first comma, `+`-separated.
pub open spec fn operations() -> Seq<Seq<char>> {
    seq!["interpreter"@, "permissions"@]
}

/// Config keys read by the preprocessor or the editor.
pub open spec fn config_keys() -> Seq<Seq<char>> {
    seq![
        "boundaries"@,
        "concreteTypes"@,
        "hideCode"@,
        "horizontal"@,
        "interpreterControls"@,
        "run"@,
        "shouldFail"@,
        "showFlows"@,
        "stepper"@,
        "stepperControls"@,
    ]
}

fn operations_exec() -> (r: Vec<Vec<char>>)
    ensures
        views(r@) == operations(),
{
    let mut r: Vec<Vec<char>> = Vec::new();
    r.push(chars_of("interpreter"));
    r.push(chars_of("permissions"));
    assert(views(r@) =~= operations());
    r
}

fn config_exec() -> (r: Vec<Vec<char>>)
    ensures
        views(r@) == config_keys(),
{
    let mut r: Vec<Vec<char>> = Vec::new();
    r.push(chars_of("boundaries"));
    r.push(chars_of("concreteTypes"));
    r.push(chars_of("hideCode"));
    r.push(chars_of("horizontal"));
    r.push(chars_of("interpreterControls"));
    r.push(chars_of("run"));
    r.push(chars_of("shouldFail"));
    r.push(chars_of("showFlows"));
    r.push(chars_of("stepper"));
    r.push(chars_of("stepperControls"));
    assert(views(r@) =~= config_keys());
    r
}

/// What `str::to_lowercase` gives for a text: its Unicode lowercase mapping.
pub uninterp spec fn lowercase(s: Seq<char>) -> Seq<char>;

/// Calls `str::to_lowercase`. The contract only names the result.
#[verifier::external_body]
fn to_lower(s: &str) -> (r: String)
    ensures
        r@ == lowercase(s@),
{
    s.to_lowercase()
}

pub open spec fn min3(a: nat, b: nat, c: nat) -> nat {
    let m = if a <= b {
        a
    } else {
        b
    };
    if m <= c {
        m
    } else {
        c
    }
}

/// The Levenshtein distance between `a` and `b`: the fewest insertions,
/// deletions and substitutions of one character that turn `a` into `b`.
pub open spec fn lev(a: Seq<char>, b: Seq<char>) -> nat
    decreases a.len() + b.len(),
{
    if a.len() == 0 {
        b.len()
    } else if b.len() == 0 {
        a.len()
    } else {
        min3(
            lev(a.drop_last(), b) + 1,
            lev(a, b.drop_last()) + 1,
            lev(a.drop_last(), b.drop_last()) + if a.last() == b.last() {
                0nat
            } else {
                1nat
            },
        )
    }
}

pub proof fn lemma_lev_bound(a: Seq<char>, b: Seq<char>)
    ensures
        lev(a, b) <= if a.len() >= b.len() {
            a.len()
        } else {
            b.len()
        },
    decreases a.len() + b.len(),
{
    if a.len() > 0 && b.len() > 0 {
        lemma_lev_bound(a.drop_last(), b.drop_last());
    }
}

/// A word is no distance from itself.
pub proof fn lemma_lev_self(a: Seq<char>)
    ensures
        lev(a, a) == 0,
    decreases a.len(),
{
    if a.len() > 0 {
        lemma_lev_self(a.drop_last());
    }
}

/// The distance does not depend on which word comes first.
pub proof fn lemma_lev_symmetric(a: Seq<char>, b: Seq<char>)
    ensures
        lev(a, b) == lev(b, a),
    decreases a.len() + b.len(),
{
    if a.len() > 0 && b.len() > 0 {
        lemma_lev_symmetric(a.drop_last(), b);
        lemma_lev_symmetric(a, b.drop_last());
        lemma_lev_symmetric(a.drop_last(), b.drop_last());
    }
}

/// Levenshtein distance, used only to suggest a correction.
pub fn distance(a: &Vec<char>, b: &Vec<char>) -> (r: usize)
    ensures
        r == lev(a@, b@),
{
    let n = b.len();
    let mut prev: Vec<u128> = Vec::new();
    let mut j: usize = 0;
    while j < n
        invariant
            n == b.len(),
            j <= n,
            prev@.len() == j,
            forall|q: int| 0 <= q < j ==> #[trigger] prev@[q] == lev(Seq::<char>::empty(), b@.take(q)),
        decreases n - j,
    {
        prev.push(j as u128);
        j = j + 1;
    }
    prev.push(n as u128);
    assert(lev(Seq::<char>::empty(), b@.take(n as int)) == n);
    assert(a@.take(0) =~= Seq::<char>::empty());
    let mut i: usize = 0;
    while i < a.len()
        invariant
            n == b.len(),
            i <= a.len(),
            prev@.len() == n + 1,
            forall|q: int| 0 <= q <= n ==> #[trigger] prev@[q] == lev(a@.take(i as int), b@.take(q)),
        decreases a.len() - i,
    {
        let mut cur: Vec<u128> = Vec::new();
        cur.push((i + 1) as u128);
        assert(a@.take(i + 1).len() > 0);
        assert(lev(a@.take(i + 1), b@.take(0)) == i + 1);
        let mut q: usize = 0;
        while q < n
            invariant
                n == b.len(),
                i < a.len(),
                q <= n,
                prev@.len() == n + 1,
                cur@.len() == q + 1,
                forall|r: int| 0 <= r <= n ==> #[trigger] prev@[r] == lev(a@.take(i as int), b@.take(r)),
                forall|r: int| 0 <= r <= q ==> #[trigger] cur@[r] == lev(a@.take(i + 1), b@.take(r)),
            decreases n - q,
        {
            proof {
                lemma_lev_bound(a@.take(i as int), b@.take(q as int));
                lemma_lev_bound(a@.take(i as int), b@.take(q + 1));
                lemma_lev_bound(a@.take(i + 1), b@.take(q as int));
            }
            let cost: u128 = if a[i] != b[q] {
                1
            } else {
                0
            };
            let x = prev[q] + cost;
            let y = prev[q + 1] + 1;
            let z = cur[q] + 1;
            let m1 = if x <= y {
                x
            } else {
                y
            };
            let m = if m1 <= z {
                m1
            } else {
                z
            };
            proof {
                let aa = a@.take(i + 1);
                let bb = b@.take(q + 1);
                assert(aa.drop_last() =~= a@.take(i as int));
                assert(bb.drop_last() =~= b@.take(q as int));
                assert(aa.last() == a@[i as int]);
                assert(bb.last() == b@[q as int]);
                lemma_lev_bound(a@.take(i as int), b@.take(q as int));
                lemma_lev_bound(a@.take(i as int), b@.take(q + 1));
                lemma_lev_bound(aa, b@.take(q as int));
            }
            cur.push(m);
            q = q + 1;
        }
        prev = cur;
        i = i + 1;
    }
    assert(a@.take(a.len() as int) =~= a@);
    assert(b@.take(n as int) =~= b@);
    proof {
        lemma_lev_bound(a@, b@);
    }
    prev[n] as usize
}

/// The closest known name, among `known` from the `i`th on, when one is
/// near enough to be worth suggesting, given the best so far.
pub open spec fn best_from(
    lower: Seq<char>,
    len: nat,
    known: Seq<Seq<char>>,
    i: int,
    best: Option<(nat, Seq<char>)>,
) -> Option<(nat, Seq<char>)>
    decreases known.len() - i,
{
    if i < 0 || i >= known.len() {
        best
    } else {
        let d = lev(lower, lowercase(known[i]));
        let better = d <= 3 && d < len && match best {
            None => true,
            Some((bd, _)) => d < bd,
        };
        best_from(lower, len, known, i + 1, if better {
            Some((d, known[i]))
        } else {
            best
        })
    }
}

/// The known name closest to `word`, compared case-insensitively, when it
/// is at most three edits away and closer than the word is long (in bytes);
/// the first of several equally close.
pub open spec fn suggest_spec(word: Seq<char>, known: Seq<Seq<char>>) -> Option<Seq<char>> {
    match best_from(lowercase(word), utf8_len(word), known, 0, None) {
        Some((_, k)) => Some(k),
        None => None,
    }
}

/// Whether the known name `k` is near enough to `word` to be suggested.
pub open spec fn near_enough(word: Seq<char>, k: Seq<char>) -> bool {
    lev(lowercase(word), lowercase(k)) <= 3 && lev(lowercase(word), lowercase(k)) < utf8_len(
        word,
    )
}

proof fn lemma_best_from(
    lower: Seq<char>,
    len: nat,
    known: Seq<Seq<char>>,
    i: int,
    best: Option<(nat, Seq<char>)>,
)
    requires
        0 <= i <= known.len(),
        best matches Some((d, k)) ==> d == lev(lower, lowercase(k)) && d <= 3 && d < len && (
        exists|j: int| 0 <= j < i && known[j] == k),
        best matches Some((d, _)) ==> forall|j: int|
            0 <= j < i ==> #[trigger] lev(lower, lowercase(known[j])) <= 3 && lev(
                lower,
                lowercase(known[j]),
            ) < len ==> d <= lev(lower, lowercase(known[j])),
        best is None ==> forall|j: int|
            0 <= j < i ==> !(#[trigger] lev(lower, lowercase(known[j])) <= 3 && lev(
                lower,
                lowercase(known[j]),
            ) < len),
    ensures
        best_from(lower, len, known, i, best) matches Some((d, k)) ==> d == lev(
            lower,
            lowercase(k),
        ) && d <= 3 && d < len && (exists|j: int| 0 <= j < known.len() && known[j] == k) && (
        forall|j: int|
            0 <= j < known.len() ==> #[trigger] lev(lower, lowercase(known[j])) <= 3 && lev(
                lower,
                lowercase(known[j]),
            ) < len ==> d <= lev(lower, lowercase(known[j]))),
        best_from(lower, len, known, i, best) is None ==> forall|j: int|
            0 <= j < known.len() ==> !(#[trigger] lev(lower, lowercase(known[j])) <= 3 && lev(
                lower,
                lowercase(known[j]),
            ) < len),
    decreases known.len() - i,
{
    if i < known.len() {
        let d = lev(lower, lowercase(known[i]));
        let better = d <= 3 && d < len && match best {
            None => true,
            Some((bd, _)) => d < bd,
        };
        let next = if better {
            Some((d, known[i]))
        } else {
            best
        };
        lemma_best_from(lower, len, known, i + 1, next);
    }
}

/// A suggestion is a known name near enough to the word, and no known
/// name is nearer; where there is none, no known name is near enough.
pub proof fn lemma_suggestion_is_closest(word: Seq<char>, known: Seq<Seq<char>>)
    ensures
        suggest_spec(word, known) matches Some(k) ==> (exists|j: int|
            0 <= j < known.len() && known[j] == k) && near_enough(word, k) && forall|j: int|
            0 <= j < known.len() && near_enough(word, #[trigger] known[j]) ==> lev(
                lowercase(word),
                lowercase(k),
            ) <= lev(lowercase(word), lowercase(known[j])),
        suggest_spec(word, known) is None ==> forall|j: int|
            0 <= j < known.len() ==> !near_enough(word, #[trigger] known[j]),
{
    lemma_best_from(lowercase(word), utf8_len(word), known, 0, None);
}

fn utf8_len_exec(s: &Vec<char>) -> (r: u128)
    ensures
        r == utf8_len(s@),
{
    let mut acc: u128 = 0;
    let mut j: usize = 0;
    while j < s.len()
        invariant
            j <= s.len(),
            acc == utf8_len(s@.take(j as int)),
            acc <= 4 * j,
        decreases s.len() - j,
    {
        assert(s@.take(j + 1).drop_last() =~= s@.take(j as int));
        acc = acc + utf8_width_exec(s[j]) as u128;
        j = j + 1;
    }
    assert(s@.take(s.len() as int) =~= s@);
    acc
}

/// The closest known name, when one is near enough to be worth suggesting.
pub fn suggest(word: &Vec<char>, known: &Vec<Vec<char>>) -> (r: Option<Vec<char>>)
    ensures
        match r {
            Some(k) => suggest_spec(word@, views(known@)) == Some(k@),
            None => suggest_spec(word@, views(known@)) is None,
        },
{
    let lower = chars_of(to_lower(string_of(word).as_str()).as_str());
    let len = utf8_len_exec(word);
    let mut best: Option<(usize, usize)> = None;
    let ghost kv = views(known@);
    let mut i: usize = 0;
    while i < known.len()
        invariant
            i <= known.len(),
            kv == views(known@),
            lower@ == lowercase(word@),
            len == utf8_len(word@),
            best matches Some(b) ==> b.1 < i,
            best_from(lower@, len as nat, kv, i as int, match best {
                Some((d, k)) => Some((d as nat, kv[k as int])),
                None => None,
            }) == best_from(lower@, len as nat, kv, 0, None),
        decreases known.len() - i,
    {
        assert(kv[i as int] == known@[i as int]@);
        let kl = chars_of(to_lower(string_of(&known[i]).as_str()).as_str());
        let d = distance(&lower, &kl);
        let better = d <= 3 && (d as u128) < len && match best {
            None => true,
            Some((bd, _)) => d < bd,
        };
        if better {
            best = Some((d, i));
        }
        i = i + 1;
    }
    match best {
        Some((_, k)) => {
            let mut v: Vec<char> = Vec::new();
            push_all(&mut v, &known[k]);
            Some(v)
        },
        None => None,
    }
}

} // verus!

verus! {

/// Three backticks.
pub open spec fn ticks3() -> Seq<char> {
    seq!['`', '`', '`']
}

/// An opening ```aquascope fence.
pub open spec fn aquascope_fence() -> Seq<char> {
    seq!['`', '`', '`', 'a', 'q', 'u', 'a', 's', 'c', 'o', 'p', 'e']
}

pub open spec fn bare_message(n: nat) -> Seq<char> {
    decimal(n)
        + ": ```aquascope has no operation, so the block is left as plain code. Write ```aquascope,interpreter or ```aquascope,permissions"@
}

pub open spec fn operation_message(n: nat, op: Seq<char>, s: Option<Seq<char>>) -> Seq<char> {
    match s {
        Some(s) => decimal(n) + ": unknown Aquascope operation `"@ + op + "`, did you mean `"@ + s
            + "`?"@,
        None => decimal(n) + ": unknown Aquascope operation `"@ + op
            + "`, expected one of interpreter, permissions"@,
    }
}

pub open spec fn specifier_message(n: nat, key: Seq<char>, s: Option<Seq<char>>) -> Seq<char> {
    match s {
        Some(s) => decimal(n) + ": unknown Aquascope specifier `"@ + key + "`, did you mean `"@ + s
            + "`?"@,
        None => decimal(n) + ": unknown Aquascope specifier `"@ + key + "`"@,
    }
}

/// The warnings for the `+`-separated operations.
pub open spec fn op_warnings(ops: Seq<Seq<char>>, n: nat) -> Seq<Seq<char>>
    decreases ops.len(),
{
    if ops.len() == 0 {
        Seq::empty()
    } else {
        let r = op_warnings(ops.drop_last(), n);
        let op = trim(ops.last());
        if op.len() > 0 && !operations().contains(op) {
            r.push(operation_message(n, op, suggest_spec(op, operations())))
        } else {
            r
        }
    }
}

/// The warnings for the config entries, each `key` or `key=value`.
pub open spec fn config_warnings(entries: Seq<Seq<char>>, n: nat) -> Seq<Seq<char>>
    decreases entries.len(),
{
    if entries.len() == 0 {
        Seq::empty()
    } else {
        let r = config_warnings(entries.drop_last(), n);
        let key = trim(split_on(entries.last(), '=')[0]);
        if key.len() == 0 || config_keys().contains(key) {
            r
        } else {
            r.push(specifier_message(n, key, suggest_spec(key, config_keys())))
        }
    }
}

/// The warnings for the fence lines from the `i`th on. Only an opening
/// fence carries specifiers, so every other ``` line closes a block.
pub open spec fn lint_from(ls: Seq<Seq<char>>, i: int, in_block: bool, out: Seq<Seq<char>>) -> Seq<
    Seq<char>,
>
    decreases ls.len() - i,
{
    if i < 0 || i >= ls.len() {
        out
    } else {
        let t = trim_start(ls[i]);
        if !crate::text::starts_with(t, ticks3()) {
            lint_from(ls, i + 1, in_block, out)
        } else if in_block {
            lint_from(ls, i + 1, false, out)
        } else if !crate::text::starts_with(t, aquascope_fence()) {
            lint_from(ls, i + 1, true, out)
        } else {
            let spec = t.skip(12);
            let n = (i + 1) as nat;
            if !(spec.len() > 0 && spec[0] == ',') {
                lint_from(
                    ls,
                    i + 1,
                    true,
                    if is_blank(spec) {
                        out.push(bare_message(n))
                    } else {
                        out
                    },
                )
            } else {
                let parts = split_on(spec.skip(1), ',');
                let w = op_warnings(split_on(parts[0], '+'), n) + config_warnings(parts.skip(1), n);
                lint_from(ls, i + 1, true, out + w)
            }
        }
    }
}

/// Whether a line is a fence line: it starts with three backticks once
/// leading whitespace is removed.
pub open spec fn is_fence_line(line: Seq<char>) -> bool {
    crate::text::starts_with(trim_start(line), ticks3())
}

/// What an opening fence line, its leading whitespace removed, on line `n`
/// is warned about: nothing unless it is an ```aquascope fence; a missing
/// operation when it has nothing after the fence but whitespace; each
/// unknown `+`-separated operation of its first field and each unknown
/// config key of the others when it has a comma-separated list.
pub open spec fn opening_warnings(t: Seq<char>, n: nat) -> Seq<Seq<char>> {
    if !crate::text::starts_with(t, aquascope_fence()) {
        Seq::empty()
    } else {
        let spec = t.skip(12);
        if !(spec.len() > 0 && spec[0] == ',') {
            if is_blank(spec) {
                seq![bare_message(n)]
            } else {
                Seq::empty()
            }
        } else {
            let parts = split_on(spec.skip(1), ',');
            op_warnings(split_on(parts[0], '+'), n) + config_warnings(parts.skip(1), n)
        }
    }
}

proof fn lemma_inside_a_block(ls: Seq<Seq<char>>, j: int, k: int, out: Seq<Seq<char>>)
    requires
        0 <= j <= k < ls.len(),
        forall|m: int| j <= m < k ==> !is_fence_line(#[trigger] ls[m]),
    ensures
        lint_from(ls, j, true, out) == lint_from(ls, k, true, out),
    decreases k - j,
{
    if j < k {
        assert(!is_fence_line(ls[j]));
        lemma_inside_a_block(ls, j + 1, k, out);
    }
}

/// A fence line opens a block, and the next fence line closes it: the
/// scan then resumes outside any block, so the fence after a closed block
/// is checked as an opening one. Only the opening line is warned about,
/// with its own line number, and the warnings come in document order.
pub proof fn lemma_a_block_closes_at_the_next_fence(
    ls: Seq<Seq<char>>,
    i: int,
    k: int,
    out: Seq<Seq<char>>,
)
    requires
        0 <= i < k < ls.len(),
        is_fence_line(ls[i]),
        is_fence_line(ls[k]),
        forall|m: int| i < m < k ==> !is_fence_line(#[trigger] ls[m]),
    ensures
        lint_from(ls, i, false, out) == lint_from(
            ls,
            k + 1,
            false,
            out + opening_warnings(trim_start(ls[i]), (i + 1) as nat),
        ),
{
    let t = trim_start(ls[i]);
    let w = opening_warnings(t, (i + 1) as nat);
    lemma_inside_a_block(ls, i + 1, k, out + w);
    if !crate::text::starts_with(t, aquascope_fence()) {
        assert(out + w =~= out);
    } else {
        let spec = t.skip(12);
        if !(spec.len() > 0 && spec[0] == ',') {
            if is_blank(spec) {
                assert(out.push(bare_message((i + 1) as nat)) =~= out + w);
            } else {
                assert(out + w =~= out);
            }
        }
    }
    assert(is_fence_line(ls[k]));
}

/// Lines that are not fences are never warned about, and what was
/// collected before a point of the scan is kept ahead of what follows.
pub proof fn lemma_warnings_accumulate(ls: Seq<Seq<char>>, i: int, in_block: bool, out: Seq<Seq<char>>)
    ensures
        lint_from(ls, i, in_block, out) == out + lint_from(ls, i, in_block, Seq::empty()),
    decreases ls.len() - i,
{
    if i < 0 || i >= ls.len() {
        assert(out + Seq::<Seq<char>>::empty() =~= out);
    } else {
        let t = trim_start(ls[i]);
        if !crate::text::starts_with(t, ticks3()) {
            lemma_warnings_accumulate(ls, i + 1, in_block, out);
            lemma_warnings_accumulate(ls, i + 1, in_block, Seq::empty());
        } else if in_block {
            lemma_warnings_accumulate(ls, i + 1, false, out);
            lemma_warnings_accumulate(ls, i + 1, false, Seq::empty());
        } else if !crate::text::starts_with(t, aquascope_fence()) {
            lemma_warnings_accumulate(ls, i + 1, true, out);
            lemma_warnings_accumulate(ls, i + 1, true, Seq::empty());
        } else {
            let w = opening_warnings(t, (i + 1) as nat);
            let spec = t.skip(12);
            lemma_warnings_accumulate(ls, i + 1, true, out + w);
            lemma_warnings_accumulate(ls, i + 1, true, Seq::<Seq<char>>::empty() + w);
            lemma_warnings_accumulate(ls, i + 1, true, Seq::empty());
            if !(spec.len() > 0 && spec[0] == ',') {
                if is_blank(spec) {
                    assert(out.push(bare_message((i + 1) as nat)) =~= out + w);
                    assert(Seq::<Seq<char>>::empty().push(bare_message((i + 1) as nat)) =~= w);
                } else {
                    assert(out + w =~= out);
                    assert(Seq::<Seq<char>>::empty() + w =~= Seq::<Seq<char>>::empty());
                }
            } else {
                assert(Seq::<Seq<char>>::empty() + w =~= w);
            }
            let r = lint_from(ls, i + 1, true, Seq::empty());
            assert(out + w + r =~= out + (w + r));
        }
    }
}

/// The warnings for every ```aquascope fence of `markdown`.
pub open spec fn check_spec(markdown: Seq<char>) -> Seq<Seq<char>> {
    lint_from(lines(markdown), 0, false, Seq::empty())
}

fn contains_exec(list: &Vec<Vec<char>>, s: &Vec<char>, lo: usize, hi: usize) -> (r: bool)
    requires
        lo <= hi <= s.len(),
    ensures
        r == views(list@).contains(s@.subrange(lo as int, hi as int)),
{
    let ghost w = s@.subrange(lo as int, hi as int);
    let mut k: usize = 0;
    while k < list.len()
        invariant
            k <= list.len(),
            lo <= hi <= s.len(),
            w == s@.subrange(lo as int, hi as int),
            forall|q: int| 0 <= q < k ==> views(list@)[q] != w,
        decreases list.len() - k,
    {
        assert(views(list@)[k as int] == list@[k as int]@);
        if list[k].len() == hi - lo && crate::text::matches_at_exec(s, lo, &list[k]) {
            assert(views(list@)[k as int] == w);
            return true;
        }
        if list[k].len() == hi - lo {
            assert(s@.subrange(lo as int, lo + list@[k as int]@.len()) =~= w);
        }
        k = k + 1;
    }
    false
}

fn push_op_warning(out: &mut Vec<String>, n: usize, op: &Vec<char>, s: &Option<Vec<char>>)
    ensures
        final(out)@.map_values(|x: String| x@) == old(out)@.map_values(|x: String| x@).push(
            operation_message(
                n as nat,
                op@,
                match s {
                    Some(v) => Some(v@),
                    None => None,
                },
            ),
        ),
{
    let mut m: Vec<char> = Vec::new();
    push_decimal(&mut m, n as u64);
    push_str(&mut m, ": unknown Aquascope operation `");
    push_all(&mut m, op);
    match s {
        Some(v) => {
            push_str(&mut m, "`, did you mean `");
            push_all(&mut m, v);
            push_str(&mut m, "`?");
        },
        None => {
            push_str(&mut m, "`, expected one of interpreter, permissions");
        },
    }
    let ghost before = out@.map_values(|x: String| x@);
    out.push(string_of(&m));
    assert(out@.map_values(|x: String| x@) =~= before.push(m@));
}

fn push_spec_warning(out: &mut Vec<String>, n: usize, key: &Vec<char>, s: &Option<Vec<char>>)
    ensures
        final(out)@.map_values(|x: String| x@) == old(out)@.map_values(|x: String| x@).push(
            specifier_message(
                n as nat,
                key@,
                match s {
                    Some(v) => Some(v@),
                    None => None,
                },
            ),
        ),
{
    let mut m: Vec<char> = Vec::new();
    push_decimal(&mut m, n as u64);
    push_str(&mut m, ": unknown Aquascope specifier `");
    push_all(&mut m, key);
    match s {
        Some(v) => {
            push_str(&mut m, "`, did you mean `");
            push_all(&mut m, v);
            push_str(&mut m, "`?");
        },
        None => {
            push_str(&mut m, "`");
        },
    }
    let ghost before = out@.map_values(|x: String| x@);
    out.push(string_of(&m));
    assert(out@.map_values(|x: String| x@) =~= before.push(m@));
}

fn aquascope_fence_exec() -> (v: Vec<char>)
    ensures
        v@ == aquascope_fence(),
{
    let v = chars_of("```aquascope");
    proof {
        reveal_strlit("```aquascope");
    }
    assert(v@ =~= aquascope_fence());
    v
}

fn append_strings(out: &mut Vec<String>, more: &Vec<String>)
    ensures
        final(out)@.map_values(|x: String| x@) == old(out)@.map_values(|x: String| x@) + more@.map_values(
            |x: String| x@,
        ),
{
    let mut k: usize = 0;
    while k < more.len()
        invariant
            k <= more.len(),
            out@.map_values(|x: String| x@) == old(out)@.map_values(|x: String| x@) + more@.map_values(
                |x: String| x@,
            ).take(k as int),
        decreases more.len() - k,
    {
        let ghost before = out@.map_values(|x: String| x@);
        out.push(more[k].clone());
        assert(out@.map_values(|x: String| x@) =~= before.push(more@[k as int]@));
        k = k + 1;
        assert(out@.map_values(|x: String| x@) =~= old(out)@.map_values(|x: String| x@) + more@.map_values(
            |x: String| x@,
        ).take(k as int));
    }
    assert(more@.map_values(|x: String| x@).take(more.len() as int) =~= more@.map_values(|x: String| x@));
}

fn op_warnings_exec(first: &Vec<char>, line_no: usize, ops: &Vec<Vec<char>>) -> (r: Vec<String>)
    requires
        views(ops@) == operations(),
    ensures
        r@.map_values(|x: String| x@) == op_warnings(split_on(first@, '+'), line_no as nat),
{
    let opl = split_range(first, 0, first.len(), '+');
    assert(first@.subrange(0, first@.len() as int) =~= first@);
    let mut out: Vec<String> = Vec::new();
    assert(out@.map_values(|x: String| x@) =~= op_warnings(views(opl@).take(0), line_no as nat));
    let mut j: usize = 0;
    while j < opl.len()
        invariant
            j <= opl.len(),
            views(opl@) == split_on(first@, '+'),
            views(ops@) == operations(),
            out@.map_values(|x: String| x@) == op_warnings(views(opl@).take(j as int), line_no as nat),
        decreases opl.len() - j,
    {
        let op = &opl[j];
        assert(views(opl@)[j as int] == op@);
        let (a, b) = trim_range(op, 0, op.len());
        assert(op@.subrange(0, op@.len() as int) =~= op@);
        assert(views(opl@).take(j + 1).drop_last() =~= views(opl@).take(j as int));
        if b > a && !contains_exec(ops, op, a, b) {
            let word = crate::text::slice_of(op, a, b);
            let sug = suggest(&word, ops);
            push_op_warning(&mut out, line_no, &word, &sug);
        }
        j = j + 1;
    }
    assert(views(opl@).take(opl.len() as int) =~= views(opl@));
    out
}

fn config_warnings_exec(parts: &Vec<Vec<char>>, line_no: usize, conf: &Vec<Vec<char>>) -> (r: Vec<
    String,
>)
    requires
        views(conf@) == config_keys(),
        parts.len() >= 1,
    ensures
        r@.map_values(|x: String| x@) == config_warnings(views(parts@).skip(1), line_no as nat),
{
    let ghost pv = views(parts@);
    let mut out: Vec<String> = Vec::new();
    assert(out@.map_values(|x: String| x@) =~= config_warnings(pv.skip(1).take(0), line_no as nat));
    let mut e: usize = 1;
    while e < parts.len()
        invariant
            1 <= e <= parts.len(),
            pv == views(parts@),
            views(conf@) == config_keys(),
            out@.map_values(|x: String| x@) == config_warnings(pv.skip(1).take(e - 1), line_no as nat),
        decreases parts.len() - e,
    {
        let entry = &parts[e];
        assert(pv[e as int] == entry@);
        let eq_parts = split_range(entry, 0, entry.len(), '=');
        assert(entry@.subrange(0, entry@.len() as int) =~= entry@);
        proof {
            crate::lines::lemma_split_on_nonempty(entry@, '=');
        }
        let kk = &eq_parts[0];
        assert(views(eq_parts@)[0] == kk@);
        let (a, b) = trim_range(kk, 0, kk.len());
        assert(kk@.subrange(0, kk@.len() as int) =~= kk@);
        assert(pv.skip(1).take(e as int).drop_last() =~= pv.skip(1).take(e - 1));
        assert(pv.skip(1).take(e as int).last() == entry@);
        if !(a == b || contains_exec(conf, kk, a, b)) {
            let key = crate::text::slice_of(kk, a, b);
            let sug = suggest(&key, conf);
            push_spec_warning(&mut out, line_no, &key, &sug);
        }
        e = e + 1;
    }
    assert(pv.skip(1).take(parts.len() - 1) =~= pv.skip(1));
    out
}

/// Checks every ```aquascope fence in `markdown`, returning one warning per
/// problem. Line numbers are 1-based and refer to `markdown` as given.
pub fn check(markdown: &str) -> (r: Vec<String>)
    ensures
        r@.map_values(|x: String| x@) == check_spec(markdown@),
{
    let text = chars_of(markdown);
    let ls = lines_of(&text);
    let ops = operations_exec();
    let conf = config_exec();
    let fence = aquascope_fence_exec();
    let mut out: Vec<String> = Vec::new();
    let mut in_block = false;
    let mut i: usize = 0;
    assert(out@.map_values(|x: String| x@) =~= Seq::<Seq<char>>::empty());
    while i < ls.len()
        invariant
            i <= ls.len(),
            views(ls@) == lines(markdown@),
            views(ops@) == operations(),
            views(conf@) == config_keys(),
            fence@ == aquascope_fence(),
            lint_from(views(ls@), i as int, in_block, out@.map_values(|x: String| x@)) == check_spec(
                markdown@,
            ),
        decreases ls.len() - i,
    {
        let line = &ls[i];
        assert(views(ls@)[i as int] == line@);
        let k = crate::text::skip_ws(line, 0, line.len());
        assert(line@.subrange(0, line@.len() as int) =~= line@);
        let ghost t = line@.subrange(k as int, line@.len() as int);
        let n = line.len();
        let is_ticks = n - k >= 3 && line[k] == '`' && line[k + 1] == '`' && line[k + 2] == '`';
        proof {
            if n - k >= 3 {
                assert(t.take(3) =~= seq![line@[k as int], line@[k + 1], line@[k + 2]]);
            }
        }
        if !is_ticks {
            i = i + 1;
            continue;
        }
        if in_block {
            in_block = false;
            i = i + 1;
            continue;
        }
        in_block = true;
        let is_fence = n - k >= 12 && crate::text::matches_at_exec(line, k, &fence);
        proof {
            if n - k >= 12 {
                assert(t.take(12) =~= line@.subrange(k as int, k + 12));
            }
        }
        if !is_fence {
            i = i + 1;
            continue;
        }
        let line_no = i + 1;
        let s0 = k + 12;
        assert(t.skip(12) =~= line@.subrange(s0 as int, n as int));
        if !(s0 < n && line[s0] == ',') {
            if blank_range(line, s0, n) {
                let mut m: Vec<char> = Vec::new();
                push_decimal(&mut m, line_no as u64);
                push_str(
                    &mut m,
                    ": ```aquascope has no operation, so the block is left as plain code. Write ```aquascope,interpreter or ```aquascope,permissions",
                );
                let ghost before = out@.map_values(|x: String| x@);
                out.push(string_of(&m));
                assert(out@.map_values(|x: String| x@) =~= before.push(m@));
            }
            i = i + 1;
            continue;
        }
        assert(t.skip(12).skip(1) =~= line@.subrange(s0 + 1, n as int));
        let parts = split_range(line, s0 + 1, n, ',');
        proof {
            crate::lines::lemma_split_on_nonempty(line@.subrange(s0 + 1, n as int), ',');
        }
        assert(views(parts@)[0] == parts@[0]@);
        let w1 = op_warnings_exec(&parts[0], line_no, &ops);
        let w2 = config_warnings_exec(&parts, line_no, &conf);
        let ghost before = out@.map_values(|x: String| x@);
        append_strings(&mut out, &w1);
        append_strings(&mut out, &w2);
        assert(out@.map_values(|x: String| x@) =~= before + (w1@.map_values(|x: String| x@) + w2@.map_values(|x: String| x@)));
        i = i + 1;
    }
    out
}

} // verus!
