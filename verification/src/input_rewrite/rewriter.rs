//! The input rewrite engine.
//!
//! A configured rule set is applied to a byte stream that arrives in
//! arbitrarily small chunks. At every position the engine applies the
//! longest matching rule (the first-supplied rule wins among duplicates of
//! the same `FROM`), or passes one byte through. When the pending bytes are
//! a proper prefix of some rule's `FROM`, the decision is deferred until
//! more bytes arrive — unless the caller forces a flush (at end of stream,
//! or when its ambiguity timeout has elapsed).

use vstd::prelude::*;

use crate::byteseq::{bytes_eq, push_bytes};
use crate::input_rewrite::rule::{RewriteRule, RuleModel};
use vstd::slice::{slice_subrange, slice_to_vec};

verus! {

/// Every rule replaces at least one byte.
pub open spec fn wf_rules(rules: Seq<RuleModel>) -> bool {
    forall|k: int| 0 <= k < rules.len() ==> (#[trigger] rules[k]).from.len() >= 1
}

/// `FROM` lengths never increase along the list.
pub open spec fn sorted_desc(rules: Seq<RuleModel>) -> bool {
    forall|i: int, j: int|
        0 <= i < j < rules.len() ==> (#[trigger] rules[i]).from.len() >= (
        #[trigger] rules[j]).from.len()
}

/// The rule applied at the head of `input`: among the rules whose `FROM`
/// is a prefix of `input`, the longest one, and the first-listed on ties.
pub open spec fn longest_match(rules: Seq<RuleModel>, input: Seq<u8>) -> Option<RuleModel>
    decreases rules.len(),
{
    if rules.len() == 0 {
        None
    } else {
        let rest = longest_match(rules.skip(1), input);
        if rules[0].from.is_prefix_of(input) {
            match rest {
                Some(r) => if r.from.len() > rules[0].from.len() {
                    Some(r)
                } else {
                    Some(rules[0])
                },
                None => Some(rules[0]),
            }
        } else {
            rest
        }
    }
}

/// The single-pass reference transform: apply the longest match at every
/// position, or copy one byte.
pub open spec fn rewrite_spec(rules: Seq<RuleModel>, input: Seq<u8>) -> Seq<u8>
    decreases input.len(),
{
    if input.len() == 0 {
        seq![]
    } else {
        match longest_match(rules, input) {
            Some(r) => if 1 <= r.from.len() <= input.len() {
                r.to + rewrite_spec(rules, input.skip(r.from.len() as int))
            } else {
                seq![]
            },
            None => seq![input[0]] + rewrite_spec(rules, input.skip(1)),
        }
    }
}

/// Whether resolving the head of `pending` must wait for more input: some
/// rule's `FROM` is strictly longer and could still be completed.
pub open spec fn is_deferred(rules: Seq<RuleModel>, pending: Seq<u8>) -> bool {
    exists|k: int|
        0 <= k < rules.len() && (#[trigger] rules[k]).from.len() > pending.len()
            && pending.is_prefix_of(rules[k].from)
}

/// What a non-forced drain does to `input`: the bytes it emits and the
/// pending bytes it leaves for the next feed.
pub open spec fn drain_spec(rules: Seq<RuleModel>, input: Seq<u8>) -> (Seq<u8>, Seq<u8>)
    decreases input.len(),
{
    if input.len() == 0 {
        (seq![], seq![])
    } else if is_deferred(rules, input) {
        (seq![], input)
    } else {
        match longest_match(rules, input) {
            Some(r) => if 1 <= r.from.len() <= input.len() {
                let next = drain_spec(rules, input.skip(r.from.len() as int));
                (r.to + next.0, next.1)
            } else {
                (seq![], input)
            },
            None => {
                let next = drain_spec(rules, input.skip(1));
                (seq![input[0]] + next.0, next.1)
            },
        }
    }
}

/// A match comes from the rule list and matches the input.
pub proof fn lemma_longest_match_in(rules: Seq<RuleModel>, input: Seq<u8>)
    ensures
        match longest_match(rules, input) {
            Some(r) => exists|k: int|
                0 <= k < rules.len() && rules[k] == r && (#[trigger] rules[k]).from.is_prefix_of(
                    input,
                ),
            None => forall|k: int|
                0 <= k < rules.len() ==> !(#[trigger] rules[k]).from.is_prefix_of(input),
        },
    decreases rules.len(),
{
    if rules.len() > 0 {
        lemma_longest_match_in(rules.skip(1), input);
        assert(forall|k: int|
            0 <= k < rules.skip(1).len() ==> #[trigger] rules.skip(1)[k] == rules[k + 1]);
        let rest = longest_match(rules.skip(1), input);
        match rest {
            Some(r) => {
                let k = choose|k: int|
                    0 <= k < rules.skip(1).len() && rules.skip(1)[k] == r && (#[trigger] rules.skip(
                        1,
                    )[k]).from.is_prefix_of(input);
                assert(rules[k + 1] == r && rules[k + 1].from.is_prefix_of(input));
                if rules[0].from.is_prefix_of(input) && !(r.from.len() > rules[0].from.len()) {
                    assert(longest_match(rules, input) == Some(rules[0]));
                }
            },
            None => {
                if rules[0].from.is_prefix_of(input) {
                    assert(longest_match(rules, input) == Some(rules[0]));
                } else {
                    assert forall|k: int|
                        1 <= k < rules.len() implies !(#[trigger] rules[k]).from.is_prefix_of(
                        input,
                    ) by {
                        assert(rules.skip(1)[k - 1] == rules[k]);
                    }
                }
            },
        }
    }
}

/// In a list sorted by descending `FROM` length, the first rule whose
/// `FROM` is a prefix of the input is the longest match.
pub proof fn lemma_sorted_first_match(rules: Seq<RuleModel>, input: Seq<u8>, k: int)
    requires
        sorted_desc(rules),
        0 <= k < rules.len(),
        rules[k].from.is_prefix_of(input),
        forall|j: int| 0 <= j < k ==> !(#[trigger] rules[j]).from.is_prefix_of(input),
    ensures
        longest_match(rules, input) == Some(rules[k]),
    decreases rules.len(),
{
    lemma_longest_match_in(rules.skip(1), input);
    if k == 0 {
        match longest_match(rules.skip(1), input) {
            Some(r) => {
                let j = choose|j: int|
                    0 <= j < rules.skip(1).len() && rules.skip(1)[j] == r && (#[trigger] rules.skip(
                        1,
                    )[j]).from.is_prefix_of(input);
                assert(rules[j + 1] == r);
                assert(r.from.len() <= rules[0].from.len());
            },
            None => {},
        }
    } else {
        assert(forall|j: int|
            0 <= j < k - 1 ==> rules.skip(1)[j] == rules[j + 1]
                && !(#[trigger] rules.skip(1)[j]).from.is_prefix_of(input));
        lemma_sorted_first_match(rules.skip(1), input, k - 1);
        assert(rules.skip(1)[k - 1] == rules[k]);
    }
}

/// No rule matching the input means no longest match.
pub proof fn lemma_no_match(rules: Seq<RuleModel>, input: Seq<u8>)
    requires
        forall|j: int| 0 <= j < rules.len() ==> !(#[trigger] rules[j]).from.is_prefix_of(input),
    ensures
        longest_match(rules, input) is None,
{
    lemma_longest_match_in(rules, input);
    if longest_match(rules, input) is Some {
        let r = longest_match(rules, input)->Some_0;
        let k = choose|k: int|
            0 <= k < rules.len() && rules[k] == r && (#[trigger] rules[k]).from.is_prefix_of(input);
        assert(!rules[k].from.is_prefix_of(input));
    }
}

} // verus!

verus! {

/// `rules` with every later duplicate of an earlier `FROM` removed, from
/// position `i` on.
pub open spec fn dedup_keep(rules: Seq<RuleModel>, i: int) -> Seq<RuleModel>
    decreases rules.len() - i,
{
    if i < 0 || i >= rules.len() {
        seq![]
    } else if has_from_before(rules, i) {
        dedup_keep(rules, i + 1)
    } else {
        seq![rules[i]] + dedup_keep(rules, i + 1)
    }
}

/// Whether an earlier rule has the same `FROM` as the rule at `i`.
pub open spec fn has_from_before(rules: Seq<RuleModel>, i: int) -> bool {
    exists|j: int| 0 <= j < i && (#[trigger] rules[j]).from == rules[i].from
}

/// `rules` deduplicated by `FROM`; the first occurrence wins.
pub open spec fn dedup_first(rules: Seq<RuleModel>) -> Seq<RuleModel> {
    dedup_keep(rules, 0)
}

/// Where `r` goes in a list sorted by descending `FROM` length: after
/// every rule at least as long, so that earlier-supplied rules stay first
/// among equals.
pub open spec fn insert_pos(rules: Seq<RuleModel>, r: RuleModel) -> int
    decreases rules.len(),
{
    if rules.len() == 0 {
        0
    } else if rules[0].from.len() >= r.from.len() {
        1 + insert_pos(rules.skip(1), r)
    } else {
        0
    }
}

/// `r` inserted into a sorted list at its position.
pub open spec fn insert_sorted(rules: Seq<RuleModel>, r: RuleModel) -> Seq<RuleModel> {
    rules.take(insert_pos(rules, r)) + seq![r] + rules.skip(insert_pos(rules, r))
}

/// Insertion sort of `rest` into the accumulator `acc`.
pub open spec fn sort_from(acc: Seq<RuleModel>, rest: Seq<RuleModel>) -> Seq<RuleModel>
    decreases rest.len(),
{
    if rest.len() == 0 {
        acc
    } else {
        sort_from(insert_sorted(acc, rest[0]), rest.skip(1))
    }
}

/// The rule list as the rewriter holds it: deduplicated by `FROM` (first
/// supplied wins), then stably sorted by descending `FROM` length.
pub open spec fn normalize(rules: Seq<RuleModel>) -> Seq<RuleModel> {
    sort_from(seq![], dedup_first(rules))
}

proof fn lemma_insert_pos_props(rules: Seq<RuleModel>, r: RuleModel)
    ensures
        0 <= insert_pos(rules, r) <= rules.len(),
        forall|i: int|
            0 <= i < insert_pos(rules, r) ==> (#[trigger] rules[i]).from.len() >= r.from.len(),
        insert_pos(rules, r) < rules.len() ==> rules[insert_pos(rules, r)].from.len()
            < r.from.len(),
    decreases rules.len(),
{
    if rules.len() > 0 && rules[0].from.len() >= r.from.len() {
        lemma_insert_pos_props(rules.skip(1), r);
        let p = insert_pos(rules, r);
        assert forall|i: int|
            0 <= i < p implies (#[trigger] rules[i]).from.len() >= r.from.len() by {
            if i >= 1 {
                assert(rules.skip(1)[i - 1] == rules[i]);
            }
        }
        if p < rules.len() {
            assert(rules.skip(1)[p - 1] == rules[p]);
        }
    }
}

proof fn lemma_insert_pos_exec(rules: Seq<RuleModel>, r: RuleModel, j: int)
    requires
        0 <= j <= rules.len(),
        forall|i: int| 0 <= i < j ==> (#[trigger] rules[i]).from.len() >= r.from.len(),
        j < rules.len() ==> rules[j].from.len() < r.from.len(),
    ensures
        insert_pos(rules, r) == j,
    decreases j,
{
    if j == 0 {
    } else {
        assert(forall|i: int| 0 <= i < j - 1 ==> rules.skip(1)[i] == #[trigger] rules[i + 1]);
        assert(forall|i: int|
            0 <= i < j - 1 ==> (#[trigger] rules.skip(1)[i]).from.len() >= r.from.len());
        lemma_insert_pos_exec(rules.skip(1), r, j - 1);
    }
}

proof fn lemma_insert_sorted_props(rules: Seq<RuleModel>, r: RuleModel)
    requires
        sorted_desc(rules),
    ensures
        insert_sorted(rules, r).len() == rules.len() + 1,
        sorted_desc(insert_sorted(rules, r)),
        wf_rules(rules) && r.from.len() >= 1 ==> wf_rules(insert_sorted(rules, r)),
{
    lemma_insert_pos_props(rules, r);
    let p = insert_pos(rules, r);
    let out = insert_sorted(rules, r);
    assert(forall|i: int| 0 <= i < p ==> #[trigger] out[i] == rules[i]);
    assert(out[p] == r);
    assert(forall|i: int| p < i < out.len() ==> #[trigger] out[i] == rules[i - 1]);
    assert forall|i: int, j: int|
        0 <= i < j < out.len() implies (#[trigger] out[i]).from.len() >= (
    #[trigger] out[j]).from.len() by {
        if i < p && j == p {
        } else if i == p && j > p {
            assert(rules[j - 1].from.len() <= rules[p].from.len());
        }
    }
}

} // verus!

verus! {

/// The streaming rewriter: the normalized rule set and the bytes whose
/// resolution is still pending.
pub struct InputRewriter {
    rules: Vec<RewriteRule>,
    buffer: Vec<u8>,
    pending_timeout_millis: u64,
}

impl InputRewriter {
    #[verifier::type_invariant]
    spec fn type_wf(self) -> bool {
        sorted_desc(self.rules.deep_view()) && wf_rules(self.rules.deep_view())
    }

    /// The rules as held: deduplicated and sorted for longest-match scans.
    pub closed spec fn rules_view(&self) -> Seq<RuleModel> {
        self.rules.deep_view()
    }

    /// The bytes received but not yet resolved into output.
    pub closed spec fn pending_view(&self) -> Seq<u8> {
        self.buffer@
    }

    /// The configured ambiguity timeout, in milliseconds.
    pub closed spec fn spec_pending_timeout_millis(&self) -> u64 {
        self.pending_timeout_millis
    }

    /// A rewriter over `rules`. Duplicate `FROM` patterns are dropped
    /// (the first occurrence wins) and the rest are ordered by descending
    /// `FROM` length, so that scans take the longest match first.
    #[verifier::rlimit(80)]
    pub fn new(rules: Vec<RewriteRule>) -> (r: InputRewriter)
        ensures
            r.rules_view() == normalize(rules.deep_view()),
            wf_rules(r.rules_view()),
            sorted_desc(r.rules_view()),
            r.pending_view() == Seq::<u8>::empty(),
            r.spec_pending_timeout_millis() == 50,
    {
        let ghost orig = rules.deep_view();
        let mut source = rules;
        let mut kept: Vec<RewriteRule> = Vec::new();
        let ghost mut i: int = 0;
        while source.len() > 0
            invariant
                0 <= i <= orig.len(),
                source.deep_view() =~= orig.skip(i),
                dedup_first(orig) == kept.deep_view() + dedup_keep(orig, i),
                forall|j: int|
                    #![trigger orig[j]]
                    0 <= j < i ==> exists|k: int|
                        0 <= k < kept.deep_view().len() && (#[trigger] kept.deep_view()[k]).from
                            == orig[j].from,
                forall|k: int|
                    #![trigger kept.deep_view()[k]]
                    0 <= k < kept.deep_view().len() ==> exists|j: int|
                        0 <= j < i && #[trigger] orig[j].from == kept.deep_view()[k].from,
            decreases orig.len() - i,
        {
            let ghost kept_pre = kept.deep_view();
            let ghost src_pre = source.deep_view();
            let r = source.remove(0);
            proof {
                assert(src_pre.len() > 0);
                assert(src_pre =~= orig.skip(i));
                assert(orig.skip(i).len() == orig.len() - i);
                assert(0 <= i < orig.len());
                assert(orig.skip(i)[0] == orig[i]);
                assert(r@ == src_pre[0]);
                assert(src_pre[0] == orig.skip(i)[0]);
                assert(r@ == orig[i]);
                assert(source.deep_view() =~= src_pre.skip(1));
                assert(src_pre.skip(1) =~= orig.skip(i).skip(1));
                assert(orig.skip(i).skip(1) =~= orig.skip(i + 1));
            }
            let mut found = false;
            let mut k: usize = 0;
            while k < kept.len() && !found
                invariant
                    0 <= k <= kept.deep_view().len(),
                    kept.deep_view() == kept_pre,
                    !found ==> forall|k2: int|
                        0 <= k2 < k ==> (#[trigger] kept.deep_view()[k2]).from != r@.from,
                    found ==> exists|k2: int|
                        0 <= k2 < kept.deep_view().len() && (
                        #[trigger] kept.deep_view()[k2]).from == r@.from,
                decreases kept.deep_view().len() - k, (if found {
                    0int
                } else {
                    1int
                }),
            {
                if bytes_eq(kept[k].from(), r.from()) {
                    proof {
                        assert(kept.deep_view()[k as int].from == r@.from);
                    }
                    found = true;
                } else {
                    k = k + 1;
                }
            }
            proof {
                if found {
                    let k2 = choose|k2: int|
                        0 <= k2 < kept.deep_view().len() && (
                        #[trigger] kept.deep_view()[k2]).from == r@.from;
                    let j = choose|j: int|
                        0 <= j < i && (#[trigger] kept.deep_view()[k2]).from == orig[j].from;
                    assert(orig[j].from == orig[i].from);
                    assert(has_from_before(orig, i));
                } else {
                    if has_from_before(orig, i) {
                        let j = choose|j: int|
                            0 <= j < i && (#[trigger] orig[j]).from == orig[i].from;
                        let k2 = choose|k2: int|
                            0 <= k2 < kept.deep_view().len() && (
                            #[trigger] kept.deep_view()[k2]).from == orig[j].from;
                        assert(kept.deep_view()[k2].from == r@.from);
                    }
                    assert(!has_from_before(orig, i));
                }
            }
            if !found {
                let ghost rm = r@;
                kept.push(r);
                proof {
                    assert(kept.deep_view() =~= kept_pre + seq![rm]);
                    assert(dedup_keep(orig, i) == seq![orig[i]] + dedup_keep(orig, i + 1));
                    assert((kept_pre + seq![rm]) + dedup_keep(orig, i + 1) =~= kept_pre + (
                    seq![rm] + dedup_keep(orig, i + 1)));
                    assert forall|j: int| #![trigger orig[j]]
                        0 <= j < i + 1 implies exists|k2: int|
                            0 <= k2 < kept.deep_view().len() && (
                            #[trigger] kept.deep_view()[k2]).from == orig[j].from by {
                        if j < i {
                            let k2 = choose|k2: int|
                                0 <= k2 < kept_pre.len() && (#[trigger] kept_pre[k2]).from
                                    == orig[j].from;
                            assert(kept.deep_view()[k2].from == orig[j].from);
                        } else {
                            assert(kept.deep_view()[kept_pre.len() as int].from == orig[j].from);
                        }
                    }
                }
            }
            proof {
                i = i + 1;
            }
        }
        proof {
            assert(orig.skip(i) =~= Seq::<RuleModel>::empty());
            assert(source.deep_view().len() == 0);
            assert(i == orig.len());
            assert(dedup_keep(orig, i) == Seq::<RuleModel>::empty());
            assert(kept.deep_view() + Seq::<RuleModel>::empty() =~= kept.deep_view());
            assert(kept.deep_view() == dedup_first(orig));
        }
        let ghost dedup = kept.deep_view();
        let mut rest = kept;
        let mut sorted: Vec<RewriteRule> = Vec::new();
        let ghost mut i2: int = 0;
        proof {
            assert(sorted.deep_view() =~= Seq::<RuleModel>::empty());
            assert(dedup.skip(0) =~= dedup);
        }
        while rest.len() > 0
            invariant
                0 <= i2 <= dedup.len(),
                rest.deep_view() =~= dedup.skip(i2),
                sort_from(sorted.deep_view(), dedup.skip(i2)) == normalize(orig),
                sorted_desc(sorted.deep_view()),
                wf_rules(sorted.deep_view()),
            decreases dedup.len() - i2,
        {
            let ghost sorted_pre = sorted.deep_view();
            let ghost rest_pre = rest.deep_view();
            let r = source_wf(rest.remove(0));
            proof {
                assert(r@ == rest_pre[0]);
                assert(rest_pre[0] == dedup.skip(i2)[0]);
                assert(rest.deep_view() =~= rest_pre.skip(1));
                assert(rest_pre.skip(1) =~= dedup.skip(i2).skip(1));
                assert(dedup.skip(i2).skip(1) =~= dedup.skip(i2 + 1));
            }
            let mut j: usize = 0;
            while j < sorted.len() && sorted[j].from().len() >= r.from().len()
                invariant
                    0 <= j <= sorted.deep_view().len(),
                    sorted.deep_view() == sorted_pre,
                    forall|jj: int|
                        0 <= jj < j ==> (#[trigger] sorted_pre[jj]).from.len() >= r@.from.len(),
                decreases sorted.deep_view().len() - j,
            {
                j = j + 1;
            }
            proof {
                lemma_insert_pos_exec(sorted_pre, r@, j as int);
                lemma_insert_sorted_props(sorted_pre, r@);
            }
            let ghost rm = r@;
            sorted.insert(j, r);
            proof {
                assert(sorted.deep_view() =~= insert_sorted(sorted_pre, rm)) by {
                    assert(sorted.deep_view() =~= sorted_pre.insert(j as int, rm));
                    assert(sorted_pre.insert(j as int, rm) =~= sorted_pre.take(j as int)
                        + seq![rm] + sorted_pre.skip(j as int));
                }
                i2 = i2 + 1;
            }
        }
        proof {
            assert(dedup.skip(i2) =~= Seq::<RuleModel>::empty());
            assert(i2 == dedup.len());
            assert(sorted.deep_view() == normalize(orig));
        }
        InputRewriter { rules: sorted, buffer: Vec::new(), pending_timeout_millis: 50 }
    }

    /// The same rewriter with another ambiguity timeout.
    pub fn with_pending_timeout(self, millis: u64) -> (r: InputRewriter)
        ensures
            r.rules_view() == self.rules_view(),
            r.pending_view() == self.pending_view(),
            r.spec_pending_timeout_millis() == millis,
    {
        proof {
            use_type_invariant(&self);
        }
        InputRewriter { pending_timeout_millis: millis, ..self }
    }

    /// The configured ambiguity timeout, in milliseconds: how long a caller
    /// should wait for more input before it forces a drain.
    pub fn pending_timeout_millis(&self) -> (r: u64)
        ensures
            r == self.spec_pending_timeout_millis(),
    {
        self.pending_timeout_millis
    }

    /// Append newly received bytes to the pending buffer.
    pub fn push(&mut self, data: &[u8])
        ensures
            final (self).rules_view() == old(self).rules_view(),
            final (self).pending_view() == old(self).pending_view() + data@,
            final (self).spec_pending_timeout_millis() == old(self).spec_pending_timeout_millis(),
    {
        proof {
            use_type_invariant(&*self);
        }
        let mut grown = slice_to_vec(self.buffer.as_slice());
        push_bytes(&mut grown, data);
        self.buffer = grown;
    }

    /// Whether bytes are pending, so that a timeout should be armed.
    pub fn has_pending(&self) -> (r: bool)
        ensures
            r <==> self.pending_view().len() > 0,
    {
        self.buffer.len() > 0
    }
}

/// A rule handed on with its well-formedness made visible.
fn source_wf(r: RewriteRule) -> (out: RewriteRule)
    ensures
        out == r,
        out@.from.len() >= 1,
{
    proof {
        use_type_invariant(&r);
    }
    r
}

} // verus!

verus! {

/// Whether the bytes of `buffer` from `i` on are a proper prefix of some
/// rule's `FROM`, so that a longer match could still complete.
fn scan_deferred(rules: &Vec<RewriteRule>, buffer: &Vec<u8>, i: usize) -> (r: bool)
    requires
        i <= buffer@.len(),
    ensures
        r == is_deferred(rules.deep_view(), buffer@.skip(i as int)),
{
    let ghost rules_g = rules.deep_view();
    let ghost rem = buffer@.skip(i as int);
    let rem_len = buffer.len() - i;
    let mut k: usize = 0;
    while k < rules.len()
        invariant
            0 <= k <= rules_g.len(),
            rules_g == rules.deep_view(),
            rem == buffer@.skip(i as int),
            i <= buffer@.len(),
            rem_len == rem.len(),
            forall|k2: int|
                0 <= k2 < k ==> !((#[trigger] rules_g[k2]).from.len() > rem.len()
                    && rem.is_prefix_of(rules_g[k2].from)),
        decreases rules_g.len() - k,
    {
        let from = rules[k].from();
        proof {
            assert(from@ == rules_g[k as int].from);
        }
        if from.len() > rem_len {
            let head = slice_subrange(from, 0, rem_len);
            let tail = slice_subrange(buffer.as_slice(), i, buffer.len());
            if bytes_eq(head, tail) {
                proof {
                    assert(head@ =~= rules_g[k as int].from.subrange(0, rem.len() as int));
                    assert(tail@ =~= rem);
                    assert(rem.is_prefix_of(rules_g[k as int].from));
                }
                return true;
            }
            proof {
                assert(head@ =~= rules_g[k as int].from.subrange(0, rem.len() as int));
                assert(tail@ =~= rem);
                assert(!rem.is_prefix_of(rules_g[k as int].from));
            }
        }
        k = k + 1;
    }
    false
}

/// The first rule in order whose `FROM` is a prefix of the bytes of
/// `buffer` from `i` on.
fn scan_match(rules: &Vec<RewriteRule>, buffer: &Vec<u8>, i: usize) -> (r: Option<usize>)
    requires
        i <= buffer@.len(),
    ensures
        match r {
            Some(k) => 0 <= k < rules.deep_view().len() && (#[trigger] rules.deep_view()[k as int]).from.is_prefix_of(buffer@.skip(i as int)) && (forall|j: int|
                0 <= j < k ==> !(#[trigger] rules.deep_view()[j]).from.is_prefix_of(
                    buffer@.skip(i as int),
                )),
            None => forall|j: int|
                0 <= j < rules.deep_view().len() ==> !(
                #[trigger] rules.deep_view()[j]).from.is_prefix_of(buffer@.skip(i as int)),
        },
{
    let ghost rules_g = rules.deep_view();
    let ghost rem = buffer@.skip(i as int);
    let rem_len = buffer.len() - i;
    let mut k: usize = 0;
    while k < rules.len()
        invariant
            0 <= k <= rules_g.len(),
            rules_g == rules.deep_view(),
            rem == buffer@.skip(i as int),
            i <= buffer@.len(),
            rem_len == rem.len(),
            forall|j: int| 0 <= j < k ==> !(#[trigger] rules_g[j]).from.is_prefix_of(rem),
        decreases rules_g.len() - k,
    {
        let from = rules[k].from();
        proof {
            assert(from@ == rules_g[k as int].from);
        }
        if from.len() <= rem_len {
            let end = buffer.len() - (rem_len - from.len());
            proof {
                assert(end == i + from@.len());
            }
            let tail = slice_subrange(buffer.as_slice(), i, end);
            if bytes_eq(from, tail) {
                proof {
                    assert(tail@ =~= rem.subrange(0, from@.len() as int));
                    assert(rules_g[k as int].from.is_prefix_of(rem));
                }
                return Some(k);
            }
            proof {
                assert(tail@ =~= rem.subrange(0, from@.len() as int));
                assert(!rules_g[k as int].from.is_prefix_of(rem));
            }
        } else {
            proof {
                assert(!rules_g[k as int].from.is_prefix_of(rem));
            }
        }
        k = k + 1;
    }
    None
}

impl InputRewriter {
    /// Resolve as much of the pending buffer as possible and return the
    /// emitted bytes. Without `force`, resolution stops where the pending
    /// bytes are a proper prefix of some rule's `FROM` — more input could
    /// still complete a longer match; those bytes stay pending. With
    /// `force` (end of stream, or the ambiguity timeout elapsed) every
    /// pending byte is resolved by the longest currently-matching rule or
    /// passed through, and nothing stays pending.
    #[verifier::rlimit(80)]
    pub fn drain(&mut self, force: bool) -> (out: Vec<u8>)
        ensures
            final (self).rules_view() == old(self).rules_view(),
            final (self).spec_pending_timeout_millis() == old(self).spec_pending_timeout_millis(),
            force ==> out@ == rewrite_spec(old(self).rules_view(), old(self).pending_view())
                && final (self).pending_view() == Seq::<u8>::empty(),
            !force ==> out@ == drain_spec(old(self).rules_view(), old(self).pending_view()).0
                && final (self).pending_view() == drain_spec(
                old(self).rules_view(),
                old(self).pending_view(),
            ).1,
    {
        proof {
            use_type_invariant(&*self);
        }
        let ghost rules_g = self.rules.deep_view();
        let ghost buf0 = self.buffer@;
        let mut out: Vec<u8> = Vec::new();
        let mut i: usize = 0;
        let mut stopped = false;
        proof {
            assert(buf0.skip(0) =~= buf0);
            assert(Seq::<u8>::empty() + rewrite_spec(rules_g, buf0) =~= rewrite_spec(
                rules_g,
                buf0,
            ));
            assert(Seq::<u8>::empty() + drain_spec(rules_g, buf0).0 =~= drain_spec(
                rules_g,
                buf0,
            ).0);
        }
        while !stopped && i < self.buffer.len()
            invariant
                0 <= i <= buf0.len(),
                self.rules.deep_view() == rules_g,
                self.buffer@ == buf0,
                sorted_desc(rules_g),
                wf_rules(rules_g),
                force ==> rewrite_spec(rules_g, buf0) == out@ + rewrite_spec(
                    rules_g,
                    buf0.skip(i as int),
                ),
                !force ==> drain_spec(rules_g, buf0).0 == out@ + drain_spec(
                    rules_g,
                    buf0.skip(i as int),
                ).0 && drain_spec(rules_g, buf0).1 == drain_spec(rules_g, buf0.skip(i as int)).1,
                stopped ==> !force && is_deferred(rules_g, buf0.skip(i as int)) && i < buf0.len(),
            decreases buf0.len() - i, (if stopped {
                0int
            } else {
                1int
            }),
        {
            let ghost rem = buf0.skip(i as int);
            if !force && scan_deferred(&self.rules, &self.buffer, i) {
                stopped = true;
            } else {
                match scan_match(&self.rules, &self.buffer, i) {
                    Some(k) => {
                        proof {
                            lemma_sorted_first_match(rules_g, rem, k as int);
                        }
                        let ghost out_pre = out@;
                        let from_len = self.rules[k].from().len();
                        push_bytes(&mut out, self.rules[k].to());
                        i = i + from_len;
                        proof {
                            assert(rem.skip(from_len as int) =~= buf0.skip(i as int));
                            let next_out = if force {
                                rewrite_spec(rules_g, buf0.skip(i as int))
                            } else {
                                drain_spec(rules_g, buf0.skip(i as int)).0
                            };
                            assert((out_pre + rules_g[k as int].to) + next_out =~= out_pre + (
                            rules_g[k as int].to + next_out));
                        }
                    },
                    None => {
                        proof {
                            lemma_no_match(rules_g, rem);
                        }
                        let ghost out_pre = out@;
                        let b = self.buffer[i];
                        out.push(b);
                        i = i + 1;
                        proof {
                            assert(rem[0] == b);
                            assert(rem.skip(1) =~= buf0.skip(i as int));
                            assert(out@ =~= out_pre + seq![b]);
                            let next_out = if force {
                                rewrite_spec(rules_g, buf0.skip(i as int))
                            } else {
                                drain_spec(rules_g, buf0.skip(i as int)).0
                            };
                            assert((out_pre + seq![b]) + next_out =~= out_pre + (seq![b]
                                + next_out));
                        }
                    },
                }
            }
        }
        let rest = slice_to_vec(slice_subrange(self.buffer.as_slice(), i, self.buffer.len()));
        proof {
            assert(rest@ =~= buf0.skip(i as int));
            if stopped {
                assert(drain_spec(rules_g, buf0.skip(i as int)) == (
                    Seq::<u8>::empty(),
                    buf0.skip(i as int),
                ));
                assert(out@ + Seq::<u8>::empty() =~= out@);
            } else {
                assert(i == buf0.len());
                assert(buf0.skip(i as int) =~= Seq::<u8>::empty());
                assert(rewrite_spec(rules_g, Seq::<u8>::empty()) =~= Seq::<u8>::empty());
                assert(drain_spec(rules_g, Seq::<u8>::empty()) == (
                    Seq::<u8>::empty(),
                    Seq::<u8>::empty(),
                ));
                assert(out@ + Seq::<u8>::empty() =~= out@);
            }
        }
        self.buffer = rest;
        out
    }
}

} // verus!

verus! {

/// With no rules configured the rewriter is the identity: nothing is ever
/// deferred, and every byte passes through unchanged.
pub proof fn lemma_no_rules_identity(input: Seq<u8>)
    ensures
        normalize(Seq::<RuleModel>::empty()) == Seq::<RuleModel>::empty(),
        rewrite_spec(Seq::<RuleModel>::empty(), input) == input,
        drain_spec(Seq::<RuleModel>::empty(), input) == (input, Seq::<u8>::empty()),
    decreases input.len(),
{
    let none = Seq::<RuleModel>::empty();
    assert(dedup_keep(none, 0) =~= Seq::<RuleModel>::empty());
    if input.len() > 0 {
        lemma_no_rules_identity(input.skip(1));
        assert(seq![input[0]] + input.skip(1) =~= input);
    }
}

/// A pending `FROM` prefix that never completes is flushed byte for byte:
/// when no rule's `FROM` is a prefix of any suffix of the pending bytes, a
/// forced drain emits them unchanged.
pub proof fn lemma_unmatched_pending_flushed(rules: Seq<RuleModel>, p: Seq<u8>)
    requires
        forall|i: int, k: int|
            0 <= i < p.len() && 0 <= k < rules.len() ==> !(#[trigger] rules[k]).from.is_prefix_of(
                #[trigger] p.skip(i),
            ),
    ensures
        rewrite_spec(rules, p) == p,
    decreases p.len(),
{
    if p.len() > 0 {
        assert forall|k: int|
            0 <= k < rules.len() implies !(#[trigger] rules[k]).from.is_prefix_of(p) by {
            assert(p.skip(0) =~= p);
            assert(!rules[k].from.is_prefix_of(p.skip(0)));
        }
        lemma_no_match(rules, p);
        assert forall|i: int, k: int|
            0 <= i < p.skip(1).len() && 0 <= k < rules.len() implies !(
        #[trigger] rules[k]).from.is_prefix_of(#[trigger] p.skip(1).skip(i)) by {
            assert(p.skip(1).skip(i) =~= p.skip(i + 1));
            assert(!rules[k].from.is_prefix_of(p.skip(i + 1)));
        }
        lemma_unmatched_pending_flushed(rules, p.skip(1));
        assert(seq![p[0]] + p.skip(1) =~= p);
    }
}

/// Once the pending bytes are not deferred, appending more input cannot
/// change which rules match at their head.
proof fn lemma_match_set_stable(rules: Seq<RuleModel>, x: Seq<u8>, ext: Seq<u8>, k: int)
    requires
        !is_deferred(rules, x),
        0 <= k < rules.len(),
    ensures
        rules[k].from.is_prefix_of(x) <==> rules[k].from.is_prefix_of(x + ext),
{
    let from = rules[k].from;
    if from.is_prefix_of(x) {
        assert((x + ext).subrange(0, from.len() as int) =~= x.subrange(0, from.len() as int));
    }
    if from.is_prefix_of(x + ext) {
        if from.len() <= x.len() {
            assert((x + ext).subrange(0, from.len() as int) =~= x.subrange(0, from.len() as int));
        } else {
            assert(from.subrange(0, x.len() as int) =~= (x + ext).subrange(0, x.len() as int));
            assert((x + ext).subrange(0, x.len() as int) =~= x);
            assert(x.is_prefix_of(from));
            assert(is_deferred(rules, x));
        }
    }
}

proof fn lemma_longest_match_stable(
    rules: Seq<RuleModel>,
    whole: Seq<RuleModel>,
    x: Seq<u8>,
    ext: Seq<u8>,
)
    requires
        !is_deferred(whole, x),
        forall|k: int|
            0 <= k < rules.len() ==> exists|k2: int|
                0 <= k2 < whole.len() && #[trigger] rules[k] == whole[k2],
    ensures
        longest_match(rules, x + ext) == longest_match(rules, x),
    decreases rules.len(),
{
    if rules.len() > 0 {
        let k2 = choose|k2: int| 0 <= k2 < whole.len() && rules[0] == whole[k2];
        lemma_match_set_stable(whole, x, ext, k2);
        assert(rules[0].from.is_prefix_of(x) <==> rules[0].from.is_prefix_of(x + ext));
        assert forall|k: int|
            0 <= k < rules.skip(1).len() implies exists|j: int|
                0 <= j < whole.len() && #[trigger] rules.skip(1)[k] == whole[j] by {
            assert(rules.skip(1)[k] == rules[k + 1]);
        }
        lemma_longest_match_stable(rules.skip(1), whole, x, ext);
    }
}

/// The heart of chunk-boundary invariance: what a non-forced drain emits
/// and defers composes with any future input exactly as the single-pass
/// transform would.
pub proof fn lemma_drain_prefix_stable(rules: Seq<RuleModel>, x: Seq<u8>, ext: Seq<u8>)
    requires
        wf_rules(rules),
    ensures
        rewrite_spec(rules, x + ext) == drain_spec(rules, x).0 + rewrite_spec(
            rules,
            drain_spec(rules, x).1 + ext,
        ),
    decreases x.len(),
{
    if x.len() == 0 {
        assert(x + ext =~= ext);
        assert(drain_spec(rules, x).1 + ext =~= ext);
        assert(Seq::<u8>::empty() + rewrite_spec(rules, ext) =~= rewrite_spec(rules, ext));
    } else if is_deferred(rules, x) {
        assert(drain_spec(rules, x) == (Seq::<u8>::empty(), x));
        assert(Seq::<u8>::empty() + rewrite_spec(rules, x + ext) =~= rewrite_spec(rules, x + ext));
    } else {
        assert(forall|k: int|
            0 <= k < rules.len() ==> exists|k2: int|
                0 <= k2 < rules.len() && #[trigger] rules[k] == rules[k2]);
        lemma_longest_match_stable(rules, rules, x, ext);
        lemma_longest_match_in(rules, x);
        match longest_match(rules, x) {
            Some(r) => {
                let f = r.from.len() as int;
                assert(1 <= f <= x.len());
                assert((x + ext).skip(f) =~= x.skip(f) + ext);
                lemma_drain_prefix_stable(rules, x.skip(f), ext);
                let d = drain_spec(rules, x.skip(f));
                assert((r.to + d.0) + rewrite_spec(rules, d.1 + ext) =~= r.to + (d.0
                    + rewrite_spec(rules, d.1 + ext)));
            },
            None => {
                assert((x + ext)[0] == x[0]);
                assert((x + ext).skip(1) =~= x.skip(1) + ext);
                lemma_drain_prefix_stable(rules, x.skip(1), ext);
                let d = drain_spec(rules, x.skip(1));
                assert((seq![x[0]] + d.0) + rewrite_spec(rules, d.1 + ext) =~= seq![x[0]] + (d.0
                    + rewrite_spec(rules, d.1 + ext)));
            },
        }
    }
}

/// All of the chunks' bytes, in arrival order.
pub open spec fn concat_chunks(chunks: Seq<Seq<u8>>) -> Seq<u8>
    decreases chunks.len(),
{
    if chunks.len() == 0 {
        seq![]
    } else {
        chunks[0] + concat_chunks(chunks.skip(1))
    }
}

/// Feeding the chunks one by one, with a non-forced drain after each:
/// the cumulative output and the bytes still pending at the end.
pub open spec fn feed_chunks(rules: Seq<RuleModel>, pending: Seq<u8>, chunks: Seq<Seq<u8>>) -> (
    Seq<u8>,
    Seq<u8>,
)
    decreases chunks.len(),
{
    if chunks.len() == 0 {
        (seq![], pending)
    } else {
        let step = drain_spec(rules, pending + chunks[0]);
        let rest = feed_chunks(rules, step.1, chunks.skip(1));
        (step.0 + rest.0, rest.1)
    }
}

/// Chunk-boundary invariance: however the input is cut into chunks, the
/// output accumulated across the per-chunk drains, followed by the forced
/// flush of what is still pending at end of stream, equals the single-pass
/// transform of the whole input.
pub proof fn lemma_chunks_match_single_pass(
    rules: Seq<RuleModel>,
    pending: Seq<u8>,
    chunks: Seq<Seq<u8>>,
)
    requires
        wf_rules(rules),
    ensures
        feed_chunks(rules, pending, chunks).0 + rewrite_spec(
            rules,
            feed_chunks(rules, pending, chunks).1,
        ) == rewrite_spec(rules, pending + concat_chunks(chunks)),
    decreases chunks.len(),
{
    if chunks.len() == 0 {
        assert(pending + concat_chunks(chunks) =~= pending);
        assert(Seq::<u8>::empty() + rewrite_spec(rules, pending) =~= rewrite_spec(rules, pending));
    } else {
        let x = pending + chunks[0];
        let ext = concat_chunks(chunks.skip(1));
        let step = drain_spec(rules, x);
        let rest = feed_chunks(rules, step.1, chunks.skip(1));
        lemma_drain_prefix_stable(rules, x, ext);
        lemma_chunks_match_single_pass(rules, step.1, chunks.skip(1));
        assert(pending + concat_chunks(chunks) =~= x + ext);
        assert((step.0 + rest.0) + rewrite_spec(rules, rest.1) =~= step.0 + (rest.0
            + rewrite_spec(rules, rest.1)));
    }
}

} // verus!

verus! {

proof fn lemma_dedup_remove_high(rules: Seq<RuleModel>, j: int, m: int)
    requires
        0 <= j < rules.len(),
        exists|i: int| 0 <= i < j && (#[trigger] rules[i]).from == rules[j].from,
        j <= m <= rules.len() - 1,
    ensures
        dedup_keep(rules, m + 1) == dedup_keep(rules.remove(j), m),
    decreases rules.len() - m,
{
    let q = rules.remove(j);
    assert(q.len() == rules.len() - 1);
    assert(forall|p: int| 0 <= p < j ==> #[trigger] q[p] == rules[p]);
    assert(forall|p: int| j <= p < q.len() ==> #[trigger] q[p] == rules[p + 1]);
    if m == q.len() {
    } else {
        assert(q[m] == rules[m + 1]);
        if has_from_before(rules, m + 1) {
            let w = choose|w: int| 0 <= w < m + 1 && (#[trigger] rules[w]).from == rules[m
                + 1].from;
            if w == j {
                let i = choose|i: int| 0 <= i < j && (#[trigger] rules[i]).from == rules[j].from;
                assert(q[i].from == q[m].from);
                assert(has_from_before(q, m));
            } else if w < j {
                assert(q[w].from == q[m].from);
                assert(has_from_before(q, m));
            } else {
                assert(q[w - 1].from == q[m].from);
                assert(has_from_before(q, m));
            }
        }
        if has_from_before(q, m) {
            let w = choose|w: int| 0 <= w < m && (#[trigger] q[w]).from == q[m].from;
            if w < j {
                assert(rules[w].from == rules[m + 1].from);
            } else {
                assert(rules[w + 1].from == rules[m + 1].from);
            }
            assert(has_from_before(rules, m + 1));
        }
        lemma_dedup_remove_high(rules, j, m + 1);
    }
}

proof fn lemma_dedup_remove_low(rules: Seq<RuleModel>, j: int, m: int)
    requires
        0 <= j < rules.len(),
        exists|i: int| 0 <= i < j && (#[trigger] rules[i]).from == rules[j].from,
        0 <= m <= j,
    ensures
        dedup_keep(rules, m) == dedup_keep(rules.remove(j), m),
    decreases j - m,
{
    let q = rules.remove(j);
    assert(forall|p: int| 0 <= p < j ==> #[trigger] q[p] == rules[p]);
    if m == j {
        assert(has_from_before(rules, j));
        lemma_dedup_remove_high(rules, j, j);
    } else {
        assert(q[m] == rules[m]);
        if has_from_before(rules, m) {
            let w = choose|w: int| 0 <= w < m && (#[trigger] rules[w]).from == rules[m].from;
            assert(q[w].from == q[m].from);
            assert(has_from_before(q, m));
        }
        if has_from_before(q, m) {
            let w = choose|w: int| 0 <= w < m && (#[trigger] q[w]).from == q[m].from;
            assert(rules[w].from == rules[m].from);
            assert(has_from_before(rules, m));
        }
        lemma_dedup_remove_low(rules, j, m + 1);
    }
}

/// When two rules share the same `FROM`, the first-supplied one wins:
/// dropping the later duplicate leaves the rewriter's normalized rule set
/// — and with it every rewrite — unchanged, whatever the duplicate's `TO`.
pub proof fn lemma_first_rule_wins(rules: Seq<RuleModel>, j: int)
    requires
        0 <= j < rules.len(),
        exists|i: int| 0 <= i < j && (#[trigger] rules[i]).from == rules[j].from,
    ensures
        normalize(rules.remove(j)) == normalize(rules),
{
    lemma_dedup_remove_low(rules, j, 0);
}

} // verus!
