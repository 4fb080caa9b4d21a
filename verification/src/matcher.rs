//! Trigger detection: which triggers end the typed text at a word boundary,
//! longest first.
use vstd::prelude::*;
use crate::config::{
    copy_form_fields, copy_opt, copy_vars, opt_view, same_form_fields, same_match, same_vars,
    trigger_list, Config, FieldConfig, MatchFile, VariableDef,
};
use crate::strmap::StringMap;
use crate::text::{byte_len, chars_of, is_ws, str_byte_len, class_has, CharClass, ends_with, has_suffix};

verus! {

/// A match whose trigger ends the input.
#[derive(Clone, Debug)]
pub struct Match {
    pub matched_text: String,
    pub replace: Option<String>,
    pub form: Option<String>,
    pub form_fields: Option<StringMap<FieldConfig>>,
    pub vars: Option<Vec<VariableDef>>,
    pub source: MatchFile,
}

/// All matches for an input, longest trigger first.
#[derive(Clone, Debug)]
pub struct MatchResult {
    pub matches: Vec<Match>,
}

/// The trigger engine over a list of matches.
pub struct Matcher {
    matches: Vec<MatchFile>,
}

/// `t` ends `input` at a word boundary: it is the whole input, or the
/// character before it is whitespace.
pub open spec fn triggers_at(input: Seq<char>, t: Seq<char>) -> bool {
    &&& ends_with(input, t)
    &&& (input.len() == t.len() || is_ws(input[input.len() - t.len() - 1]))
}

/// The triggers of the match at index `i` that fire on `input`, in order,
/// each with the index of its match.
pub open spec fn file_candidates(i: int, ts: Seq<Seq<char>>, input: Seq<char>) -> Seq<
    (int, Seq<char>),
>
    decreases ts.len(),
{
    if ts.len() == 0 {
        seq![]
    } else {
        let rest = file_candidates(i, ts.drop_last(), input);
        if triggers_at(input, ts.last()) {
            rest.push((i, ts.last()))
        } else {
            rest
        }
    }
}

/// Every trigger that fires on `input`, in the order of the matches and of
/// their triggers, each with the index of its match.
pub open spec fn candidates(files: Seq<MatchFile>, input: Seq<char>) -> Seq<(int, Seq<char>)>
    decreases files.len(),
{
    if files.len() == 0 {
        seq![]
    } else {
        candidates(files.drop_last(), input) + file_candidates(
            files.len() - 1,
            trigger_list(files.last()),
            input,
        )
    }
}

/// `m` reports the trigger `c.1` of the match at index `c.0`, with what
/// that match says.
pub open spec fn describes(m: Match, files: Seq<MatchFile>, c: (int, Seq<char>)) -> bool {
    &&& m.matched_text@ == c.1
    &&& m.replace == files[c.0].replace
    &&& m.form == files[c.0].form
    &&& same_form_fields(files[c.0].form_fields, m.form_fields)
    &&& same_vars(files[c.0].vars, m.vars)
    &&& same_match(files[c.0], m.source)
}

/// Some position of `perm` holds `c`.
pub open spec fn covered(perm: Seq<int>, c: int) -> bool {
    exists|k: int| 0 <= k < perm.len() && perm[k] == c
}

/// `perm` lists the candidates `cs` longest trigger first (in bytes), equal
/// lengths in the order of the candidates, each candidate exactly once.
pub open spec fn sorted_perm(cs: Seq<(int, Seq<char>)>, perm: Seq<int>) -> bool {
    &&& perm.len() == cs.len()
    &&& forall|k: int| 0 <= k < perm.len() ==> 0 <= #[trigger] perm[k] < cs.len()
    &&& forall|a: int, b: int| 0 <= a < b < perm.len() ==> perm[a] != perm[b]
    &&& forall|c: int| 0 <= c < cs.len() ==> #[trigger] covered(perm, c)
    &&& forall|a: int, b: int|
        0 <= a < b < perm.len() ==> byte_len(cs[perm[a]].1) >= byte_len(cs[perm[b]].1)
    &&& forall|a: int, b: int|
        0 <= a < b < perm.len() && byte_len(cs[perm[a]].1) == byte_len(cs[perm[b]].1) ==> perm[a]
            < perm[b]
}

/// `res` lists the candidates of `files` on `input` in the order `perm`.
pub open spec fn lists_candidates(
    files: Seq<MatchFile>,
    input: Seq<char>,
    res: Seq<Match>,
    perm: Seq<int>,
) -> bool {
    let cs = candidates(files, input);
    &&& sorted_perm(cs, perm)
    &&& res.len() == cs.len()
    &&& forall|k: int| 0 <= k < res.len() ==> describes(#[trigger] res[k], files, cs[perm[k]])
}

/// Candidate `c` has a longest trigger, and no earlier candidate's trigger is
/// as long.
pub open spec fn is_best(cs: Seq<(int, Seq<char>)>, c: int) -> bool {
    &&& 0 <= c < cs.len()
    &&& forall|d: int| 0 <= d < cs.len() ==> byte_len(#[trigger] cs[d].1) <= byte_len(cs[c].1)
    &&& forall|d: int| 0 <= d < c ==> byte_len(#[trigger] cs[d].1) < byte_len(cs[c].1)
}

/// Inserting the next candidate where its length belongs keeps the order.
proof fn lemma_sorted_insert(cs: Seq<(int, Seq<char>)>, perm: Seq<int>, x: (int, Seq<char>), pos: int)
    requires
        sorted_perm(cs, perm),
        0 <= pos <= perm.len(),
        forall|k: int| 0 <= k < pos ==> byte_len(cs[#[trigger] perm[k]].1) >= byte_len(x.1),
        forall|k: int| pos <= k < perm.len() ==> byte_len(cs[#[trigger] perm[k]].1) < byte_len(x.1),
    ensures
        sorted_perm(cs.push(x), perm.insert(pos, cs.len() as int)),
{
    let ncs = cs.push(x);
    let np = perm.insert(pos, cs.len() as int);
    let n = cs.len() as int;
    assert forall|k: int| 0 <= k < np.len() implies 0 <= #[trigger] np[k] < ncs.len() by {
        if k < pos {
            assert(np[k] == perm[k]);
        } else if k > pos {
            assert(np[k] == perm[k - 1]);
        }
    }
    assert forall|a: int, b: int| 0 <= a < b < np.len() implies np[a] != np[b] by {
        if a < pos && b < pos {
        } else if a < pos && b == pos {
            assert(perm[a] < n);
        } else if a < pos && b > pos {
            assert(np[b] == perm[b - 1]);
        } else if a == pos {
            assert(np[b] == perm[b - 1]);
            assert(perm[b - 1] < n);
        } else {
            assert(np[a] == perm[a - 1]);
            assert(np[b] == perm[b - 1]);
        }
    }
    assert forall|c: int| 0 <= c < ncs.len() implies #[trigger] covered(np, c) by {
        if c == n {
            assert(np[pos] == c);
        } else {
            assert(covered(perm, c));
            let k = choose|k: int| 0 <= k < perm.len() && perm[k] == c;
            if k < pos {
                assert(np[k] == c);
            } else {
                assert(np[k + 1] == c);
            }
        }
    }
    assert forall|a: int, b: int| 0 <= a < b < np.len() implies byte_len(ncs[np[a]].1) >= byte_len(
        ncs[np[b]].1,
    ) && (byte_len(ncs[np[a]].1) == byte_len(ncs[np[b]].1) ==> np[a] < np[b]) by {
        assert(forall|k: int| 0 <= k < perm.len() ==> ncs[perm[k]] == cs[perm[k]]);
        if b < pos {
            assert(np[a] == perm[a] && np[b] == perm[b]);
        } else if b == pos {
            assert(np[a] == perm[a]);
            assert(np[b] == n);
            assert(perm[a] < n);
        } else if a < pos {
            assert(np[a] == perm[a] && np[b] == perm[b - 1]);
            assert(byte_len(cs[perm[a]].1) >= byte_len(x.1));
            assert(byte_len(cs[perm[b - 1]].1) < byte_len(x.1));
        } else if a == pos {
            assert(np[b] == perm[b - 1]);
            assert(byte_len(cs[perm[b - 1]].1) < byte_len(x.1));
        } else {
            assert(np[a] == perm[a - 1] && np[b] == perm[b - 1]);
        }
    }
}

/// The first listed candidate is the best one.
pub proof fn lemma_first_is_best(cs: Seq<(int, Seq<char>)>, perm: Seq<int>)
    requires
        sorted_perm(cs, perm),
        cs.len() > 0,
    ensures
        is_best(cs, perm[0]),
{
    let c = perm[0];
    assert forall|d: int| 0 <= d < cs.len() implies byte_len(#[trigger] cs[d].1) <= byte_len(
        cs[c].1,
    ) && (d < c ==> byte_len(cs[d].1) < byte_len(cs[c].1)) by {
        assert(covered(perm, d));
        let k = choose|k: int| 0 <= k < perm.len() && perm[k] == d;
        if k > 0 {
            assert(byte_len(cs[perm[0]].1) >= byte_len(cs[perm[k]].1));
        }
    }
}

/// The candidates of one match are exactly its triggers that fire.
proof fn lemma_file_candidates(i: int, ts: Seq<Seq<char>>, input: Seq<char>)
    ensures
        forall|k: int| 0 <= k < file_candidates(i, ts, input).len() ==> {
            let c = #[trigger] file_candidates(i, ts, input)[k];
            c.0 == i && ts.contains(c.1) && triggers_at(input, c.1)
        },
        forall|j: int| 0 <= j < ts.len() && triggers_at(input, #[trigger] ts[j]) ==> file_candidates(
            i,
            ts,
            input,
        ).contains((i, ts[j])),
    decreases ts.len(),
{
    if ts.len() > 0 {
        let init = ts.drop_last();
        lemma_file_candidates(i, init, input);
        let rest = file_candidates(i, init, input);
        let fc = file_candidates(i, ts, input);
        assert forall|k: int| 0 <= k < fc.len() implies {
            let c = #[trigger] fc[k];
            c.0 == i && ts.contains(c.1) && triggers_at(input, c.1)
        } by {
            if k < rest.len() {
                assert(fc[k] == rest[k]);
                let c = rest[k];
                let w = choose|w: int| 0 <= w < init.len() && init[w] == c.1;
                assert(ts[w] == c.1);
            } else {
                assert(ts[ts.len() - 1] == ts.last());
            }
        }
        assert forall|j: int| 0 <= j < ts.len() && triggers_at(input, #[trigger] ts[j]) implies fc.contains(
            (i, ts[j]),
        ) by {
            if j < ts.len() - 1 {
                assert(init[j] == ts[j]);
                let w = choose|w: int| 0 <= w < rest.len() && rest[w] == (i, init[j]);
                assert(fc[w] == rest[w]);
            } else {
                assert(fc[fc.len() - 1] == (i, ts.last()));
            }
        }
    }
}

/// Every candidate names a trigger of one of the matches, and that trigger
/// ends the input at a word boundary.
pub proof fn law_candidates_fire(files: Seq<MatchFile>, input: Seq<char>)
    ensures
        forall|k: int| 0 <= k < candidates(files, input).len() ==> {
            let c = #[trigger] candidates(files, input)[k];
            &&& 0 <= c.0 < files.len()
            &&& trigger_list(files[c.0]).contains(c.1)
            &&& triggers_at(input, c.1)
        },
    decreases files.len(),
{
    if files.len() > 0 {
        let init = files.drop_last();
        law_candidates_fire(init, input);
        let n = files.len() - 1;
        lemma_file_candidates(n, trigger_list(files.last()), input);
        let a = candidates(init, input);
        let b = file_candidates(n, trigger_list(files.last()), input);
        let cs = candidates(files, input);
        assert forall|k: int| 0 <= k < cs.len() implies {
            let c = #[trigger] cs[k];
            &&& 0 <= c.0 < files.len()
            &&& trigger_list(files[c.0]).contains(c.1)
            &&& triggers_at(input, c.1)
        } by {
            if k < a.len() {
                assert(cs[k] == a[k]);
                assert(files[a[k].0] == init[a[k].0]);
            } else {
                assert(cs[k] == b[k - a.len()]);
                assert(files[n] == files.last());
            }
        }
    }
}

/// Every trigger of every match that ends the input at a word boundary is
/// a candidate.
pub proof fn law_firing_triggers_are_candidates(files: Seq<MatchFile>, input: Seq<char>)
    ensures
        forall|i: int, t: Seq<char>|
            0 <= i < files.len() && #[trigger] trigger_list(files[i]).contains(t) && triggers_at(input, t)
                ==> candidates(files, input).contains((i, t)),
    decreases files.len(),
{
    if files.len() > 0 {
        let init = files.drop_last();
        law_firing_triggers_are_candidates(init, input);
        let n = files.len() - 1;
        lemma_file_candidates(n, trigger_list(files.last()), input);
        let a = candidates(init, input);
        let b = file_candidates(n, trigger_list(files.last()), input);
        let cs = candidates(files, input);
        assert(cs == a + b);
        assert forall|i: int, t: Seq<char>|
            0 <= i < files.len() && #[trigger] trigger_list(files[i]).contains(t) && triggers_at(input, t)
                implies cs.contains((i, t)) by {
            let ts = trigger_list(files[i]);
            let j = choose|j: int| 0 <= j < ts.len() && ts[j] == t;
            if i < n {
                assert(files[i] == init[i]);
                assert(trigger_list(init[i]).contains(t));
                let w = choose|w: int| 0 <= w < a.len() && a[w] == (i, t);
                assert(cs[w] == a[w]);
            } else {
                assert(files[i] == files.last());
                assert(b.contains((i, ts[j])));
                let w = choose|w: int| 0 <= w < b.len() && b[w] == (i, t);
                assert(cs[a.len() + w] == b[w]);
            }
        }
    }
}

/// Match `m` reports a trigger of match `i` of `files` that ends the input
/// at a word boundary.
pub open spec fn reports(files: Seq<MatchFile>, input: Seq<char>, m: Match, i: int) -> bool {
    &&& 0 <= i < files.len()
    &&& trigger_list(files[i]).contains(m.matched_text@)
    &&& triggers_at(input, m.matched_text@)
    &&& describes(m, files, (i, m.matched_text@))
}

/// Match `m` reports a trigger of some match of `files` that ends the
/// input at a word boundary.
pub open spec fn reported(files: Seq<MatchFile>, input: Seq<char>, m: Match) -> bool {
    exists|i: int| reports(files, input, m, i)
}

/// What `find_all` lists is exactly the firing triggers: each listed match
/// reports a trigger of some match that ends the input at a word boundary,
/// and each such trigger of each match is listed.
pub proof fn law_find_all_exact(files: Seq<MatchFile>, input: Seq<char>, res: Seq<Match>, perm: Seq<int>)
    requires
        lists_candidates(files, input, res, perm),
    ensures
        forall|k: int| 0 <= k < res.len() ==> #[trigger] reported(files, input, res[k]),
        forall|i: int, t: Seq<char>|
            0 <= i < files.len() && #[trigger] trigger_list(files[i]).contains(t) && triggers_at(input, t)
                ==> exists|k: int| 0 <= k < res.len() && describes(#[trigger] res[k], files, (i, t)),
{
    let cs = candidates(files, input);
    law_candidates_fire(files, input);
    law_firing_triggers_are_candidates(files, input);
    assert forall|k: int| 0 <= k < res.len() implies #[trigger] reported(files, input, res[k]) by {
        let c = cs[perm[k]];
        assert(describes(res[k], files, c));
        assert(reports(files, input, res[k], c.0));
    }
    assert forall|i: int, t: Seq<char>|
        0 <= i < files.len() && #[trigger] trigger_list(files[i]).contains(t) && triggers_at(input, t)
            implies exists|k: int| 0 <= k < res.len() && describes(#[trigger] res[k], files, (i, t)) by {
        assert(cs.contains((i, t)));
        let c = choose|c: int| 0 <= c < cs.len() && cs[c] == (i, t);
        assert(covered(perm, c));
        let k = choose|k: int| 0 <= k < perm.len() && perm[k] == c;
        assert(describes(res[k], files, cs[perm[k]]));
    }
}

/// There is one best candidate: two candidates that are both best are the
/// same.
pub proof fn law_best_is_unique(cs: Seq<(int, Seq<char>)>, a: int, b: int)
    requires
        is_best(cs, a),
        is_best(cs, b),
    ensures
        a == b,
{
    assert(byte_len(cs[a].1) <= byte_len(cs[b].1));
    assert(byte_len(cs[b].1) <= byte_len(cs[a].1));
}

impl Matcher {
    /// The list of matches, as given.
    pub closed spec fn files(&self) -> Seq<MatchFile> {
        self.matches@
    }

    /// A matcher over `matches`.
    pub fn new(matches: Vec<MatchFile>) -> (m: Self)
        ensures
            m.files() == matches@,
    {
        Matcher { matches }
    }

    /// A matcher over the matches of every file, files in order.
    pub fn from_files(files: Vec<(String, Config)>) -> (m: Self)
        ensures
            m.files() == all_file_matches(files@),
    {
        let mut all: Vec<MatchFile> = Vec::new();
        let mut files = files;
        let ghost orig = files@;
        let ghost mut k: int = 0;
        assert(orig.take(0) =~= Seq::<(String, Config)>::empty());
        assert(orig.skip(0) =~= orig);
        while files.len() > 0
            invariant
                0 <= k <= orig.len(),
                files@ == orig.skip(k),
                all@ == all_file_matches(orig.take(k)),
            decreases files@.len(),
        {
            let (path, config) = files.remove(0);
            assert(orig[k] == (path, config));
            let mut ms = config.matches;
            all.append(&mut ms);
            proof {
                assert(orig.take(k + 1).drop_last() =~= orig.take(k));
                assert(orig.take(k + 1).last() == orig[k]);
                assert(orig.skip(k).drop_first() =~= orig.skip(k + 1));
                k = k + 1;
            }
        }
        assert(orig.take(k) =~= orig);
        Self::new(all)
    }

    /// The matches that this matcher holds.
    pub fn matches(&self) -> (r: &[MatchFile])
        ensures
            r@ == self.files(),
    {
        self.matches.as_slice()
    }

    /// `Some` with the trigger when it ends `input` at a word boundary.
    fn check_trigger(&self, input: &[char], trigger: &str) -> (r: Option<String>)
        ensures
            match r {
                Some(t) => triggers_at(input@, trigger@) && t@ == trigger@,
                None => !triggers_at(input@, trigger@),
            },
    {
        let t = chars_of(trigger);
        if has_suffix(input, &t) {
            let prefix_end = input.len() - t.len();
            if prefix_end == 0 || class_has(CharClass::Whitespace, input[prefix_end - 1]) {
                return Some(trigger.to_owned());
            }
        }
        None
    }

    /// Every trigger that ends `input` at a word boundary, longest first
    /// (by UTF-8 length); triggers of equal length keep the order of the
    /// matches and of their triggers.
    pub fn find_all(&self, input: &str) -> (r: MatchResult)
        ensures
            exists|perm: Seq<int>| lists_candidates(self.files(), input@, r.matches@, perm),
    {
        let inp = chars_of(input);
        let mut results: Vec<Match> = Vec::new();
        let mut keys: Vec<usize> = Vec::new();
        let ghost mut perm: Seq<int> = seq![];
        let ghost files = self.matches@;
        let mut i: usize = 0;
        while i < self.matches.len()
            invariant
                files == self.matches@,
                inp@ == input@,
                i <= files.len(),
                sorted_perm(candidates(files.take(i as int), input@), perm),
                results@.len() == perm.len(),
                keys@.len() == perm.len(),
                forall|k: int|
                    0 <= k < results@.len() ==> describes(
                        #[trigger] results@[k],
                        files,
                        candidates(files.take(i as int), input@)[perm[k]],
                    ),
                forall|k: int|
                    0 <= k < keys@.len() ==> keys@[k] == byte_len(
                        candidates(files.take(i as int), input@)[perm[k]].1,
                    ),
            decreases files.len() - i,
        {
            let m = &self.matches[i];
            let ts = m.triggers();
            let ghost tl = trigger_list(files[i as int]);
            let ghost base = candidates(files.take(i as int), input@);
            let mut j: usize = 0;
            assert(tl.take(0) =~= Seq::<Seq<char>>::empty());
            assert(base + file_candidates(i as int, tl.take(0), input@) =~= base);
            while j < ts.len()
                invariant
                    files == self.matches@,
                    *m == files[i as int],
                    inp@ == input@,
                    i < files.len(),
                    ts@.len() == tl.len(),
                    forall|q: int| 0 <= q < ts@.len() ==> ts@[q]@ == tl[q],
                    base == candidates(files.take(i as int), input@),
                    j <= ts@.len(),
                    sorted_perm(base + file_candidates(i as int, tl.take(j as int), input@), perm),
                    results@.len() == perm.len(),
                    keys@.len() == perm.len(),
                    forall|k: int|
                        0 <= k < results@.len() ==> describes(
                            #[trigger] results@[k],
                            files,
                            (base + file_candidates(i as int, tl.take(j as int), input@))[perm[k]],
                        ),
                    forall|k: int|
                        0 <= k < keys@.len() ==> keys@[k] == byte_len(
                            (base + file_candidates(i as int, tl.take(j as int), input@))[perm[k]].1,
                        ),
                decreases ts@.len() - j,
            {
                let ghost cs = base + file_candidates(i as int, tl.take(j as int), input@);
                assert(tl.take(j + 1).drop_last() =~= tl.take(j as int));
                let trigger: &str = ts[j];
                match self.check_trigger(&inp, trigger) {
                    Some(matched) => {
                        let klen = str_byte_len(trigger);
                        let ghost x = (i as int, tl[j as int]);
                        let mut pos: usize = 0;
                        while pos < keys.len() && keys[pos] >= klen
                            invariant
                                pos <= keys@.len(),
                                forall|k: int| 0 <= k < pos ==> keys@[k] >= klen,
                            decreases keys@.len() - pos,
                        {
                            pos = pos + 1;
                        }
                        proof {
                            assert(klen == byte_len(x.1));
                            assert forall|k: int| pos <= k < keys@.len() implies keys@[k] < klen by {
                                if k > pos {
                                    assert(byte_len(cs[perm[pos as int]].1) >= byte_len(cs[perm[k]].1));
                                }
                            }
                            assert forall|k: int| 0 <= k < pos implies byte_len(
                                cs[#[trigger] perm[k]].1,
                            ) >= byte_len(x.1) by {
                                assert(keys@[k] >= klen);
                            }
                            lemma_sorted_insert(cs, perm, x, pos as int);
                            assert(file_candidates(i as int, tl.take(j + 1), input@)
                                == file_candidates(i as int, tl.take(j as int), input@).push(x));
                            assert(base + file_candidates(i as int, tl.take(j + 1), input@)
                                =~= cs.push(x));
                        }
                        let item = Match {
                            matched_text: matched,
                            replace: copy_opt(&m.replace),
                            form: copy_opt(&m.form),
                            form_fields: copy_form_fields(&m.form_fields),
                            vars: copy_vars(&m.vars),
                            source: m.clone(),
                        };
                        assert(describes(item, files, x));
                        let ghost old_results = results@;
                        let ghost old_keys = keys@;
                        results.insert(pos, item);
                        keys.insert(pos, klen);
                        proof {
                            let np = perm.insert(pos as int, cs.len() as int);
                            let ncs = cs.push(x);
                            assert forall|k: int| 0 <= k < results@.len() implies describes(
                                #[trigger] results@[k],
                                files,
                                ncs[np[k]],
                            ) && keys@[k] == byte_len(ncs[np[k]].1) by {
                                if k < pos {
                                    assert(results@[k] == old_results[k]);
                                    assert(np[k] == perm[k]);
                                    assert(perm[k] < cs.len());
                                    assert(describes(old_results[k], files, cs[perm[k]]));
                                } else if k > pos {
                                    assert(results@[k] == old_results[k - 1]);
                                    assert(np[k] == perm[k - 1]);
                                    assert(perm[k - 1] < cs.len());
                                    assert(describes(old_results[k - 1], files, cs[perm[k - 1]]));
                                }
                            }
                            perm = np;
                        }
                    },
                    None => {
                        assert(file_candidates(i as int, tl.take(j + 1), input@)
                            == file_candidates(i as int, tl.take(j as int), input@));
                    },
                }
                j = j + 1;
            }
            proof {
                assert(ts@.len() == tl.len());
                assert(tl.take(j as int) =~= tl);
                assert(files.take(i + 1).drop_last() =~= files.take(i as int));
                assert(files.take(i + 1).last() == files[i as int]);
            }
            i = i + 1;
        }
        assert(files.take(i as int) =~= files);
        assert(lists_candidates(files, input@, results@, perm));
        let r = MatchResult { matches: results };
        assert(lists_candidates(self.files(), input@, r.matches@, perm));
        r
    }

    /// The first of `find_all`: a longest trigger that ends `input` at a
    /// word boundary, the earliest one among equally long triggers.
    pub fn find_best(&self, input: &str) -> (r: Option<Match>)
        ensures
            (r is None) == (candidates(self.files(), input@).len() == 0),
            r matches Some(m) ==> exists|c: int|
                is_best(candidates(self.files(), input@), c) && describes(
                    m,
                    self.files(),
                    candidates(self.files(), input@)[c],
                ),
    {
        let result = self.find_all(input);
        let ghost perm = choose|perm: Seq<int>|
            lists_candidates(self.files(), input@, result.matches@, perm);
        let mut matches = result.matches;
        if matches.len() == 0 {
            None
        } else {
            proof {
                lemma_first_is_best(candidates(self.files(), input@), perm);
                assert(describes(matches@[0], self.files(), candidates(self.files(), input@)[perm[0]]));
            }
            Some(matches.remove(0))
        }
    }
}

/// The matches of every file, files in order.
pub open spec fn all_file_matches(files: Seq<(String, Config)>) -> Seq<MatchFile>
    decreases files.len(),
{
    if files.len() == 0 {
        seq![]
    } else {
        all_file_matches(files.drop_last()) + files.last().1.matches@
    }
}

} // verus!
