//! Merging, deduplication and ranking of repository candidates.

use vstd::prelude::*;

verus! {

use crate::document::bytes_eq;
use crate::document::clone_bytes;

/// One candidate source able to supply some of the requested content references.
#[derive(Debug)]
pub struct RepoFinderResult {
    /// URI or local path of the source repository.
    pub uri: Vec<u8>,
    /// Identifier of the keyring used to verify content from this source.
    pub keyring: Vec<u8>,
    /// Lower is preferred.
    pub priority: i64,
    /// Summary freshness; newer is preferred.
    pub timestamp: u64,
    /// The requested references this source claims to supply.
    pub refs: Vec<Vec<u8>>,
}

/// The mathematical model of one candidate.
pub struct CandidateModel {
    pub uri: Seq<u8>,
    pub keyring: Seq<u8>,
    pub priority: int,
    pub timestamp: int,
    pub refs: Seq<Seq<u8>>,
}

impl View for RepoFinderResult {
    type V = CandidateModel;

    open spec fn view(&self) -> CandidateModel {
        CandidateModel {
            uri: self.uri@,
            keyring: self.keyring@,
            priority: self.priority as int,
            timestamp: self.timestamp as int,
            refs: refs_model(self.refs@),
        }
    }
}

/// The outcome of querying one finder backend.
pub enum BackendOutcome {
    /// The backend answered with a list of candidates (possibly empty).
    Responded(Vec<RepoFinderResult>),
    /// The backend raised an internal error; it contributes nothing.
    Failed,
    /// The backend missed the deadline; it contributes nothing.
    TimedOut,
}

/// The mathematical model of one backend outcome.
pub enum OutcomeModel {
    Responded(Seq<CandidateModel>),
    Failed,
    TimedOut,
}

impl View for BackendOutcome {
    type V = OutcomeModel;

    open spec fn view(&self) -> OutcomeModel {
        match self {
            BackendOutcome::Responded(cs) => OutcomeModel::Responded(
                cs@.map_values(|c: RepoFinderResult| c@),
            ),
            BackendOutcome::Failed => OutcomeModel::Failed,
            BackendOutcome::TimedOut => OutcomeModel::TimedOut,
        }
    }
}

/// A candidate together with the registration rank of the backend whose
/// record is being retained; ranks break ties deterministically.
pub struct RankedCandidate {
    pub result: RepoFinderResult,
    pub rank: usize,
}

/// The mathematical model of a ranked candidate.
pub struct RankedModel {
    pub cand: CandidateModel,
    pub rank: int,
}

impl View for RankedCandidate {
    type V = RankedModel;

    open spec fn view(&self) -> RankedModel {
        RankedModel { cand: self.result@, rank: self.rank as int }
    }
}

/// The model of a list of backend outcomes.
pub open spec fn outcomes_model(s: Seq<BackendOutcome>) -> Seq<OutcomeModel> {
    s.map_values(|o: BackendOutcome| o@)
}

/// The model of a list of candidates.
pub open spec fn candidates_model(s: Seq<RepoFinderResult>) -> Seq<CandidateModel> {
    s.map_values(|c: RepoFinderResult| c@)
}

/// The model of a list of ranked candidates.
pub open spec fn ranked_model(s: Seq<RankedCandidate>) -> Seq<RankedModel> {
    s.map_values(|c: RankedCandidate| c@)
}

/// The model of a list of byte vectors.
pub open spec fn refs_model(s: Seq<Vec<u8>>) -> Seq<Seq<u8>> {
    s.map_values(|v: Vec<u8>| v@)
}

/// What an outcome contributes to the merge: its candidates when it
/// responded, nothing when it failed or timed out.
pub open spec fn contributions(o: OutcomeModel) -> Seq<CandidateModel> {
    match o {
        OutcomeModel::Responded(cs) => cs,
        OutcomeModel::Failed => Seq::empty(),
        OutcomeModel::TimedOut => Seq::empty(),
    }
}

/// Index of the first candidate in `acc` with source identity `u`, or
/// `acc.len()` when there is none.
pub open spec fn uri_index(acc: Seq<RankedModel>, u: Seq<u8>) -> int
    decreases acc.len(),
{
    if acc.len() == 0 {
        0
    } else if acc[0].cand.uri == u {
        0
    } else {
        1 + uri_index(acc.drop_first(), u)
    }
}

/// Union of claimed-reference lists: keeps `a`, then appends each element of
/// `b` not yet present, in order and without duplicates from `b`.
pub open spec fn union_refs(a: Seq<Seq<u8>>, b: Seq<Seq<u8>>) -> Seq<Seq<u8>>
    decreases b.len(),
{
    if b.len() == 0 {
        a
    } else {
        union_refs(
            if a.contains(b[0]) {
                a
            } else {
                a.push(b[0])
            },
            b.drop_first(),
        )
    }
}

/// Merging a newly reported candidate into an already-merged record with the
/// same source identity: the claimed references are unioned, and the record
/// (keyring, priority, timestamp) with the newer timestamp is retained; on a
/// timestamp tie the record already held — from the backend with the lower
/// registration rank — wins.
pub open spec fn combine(a: RankedModel, c: CandidateModel, rank: int) -> RankedModel {
    if c.timestamp > a.cand.timestamp {
        RankedModel {
            cand: CandidateModel {
                uri: a.cand.uri,
                keyring: c.keyring,
                priority: c.priority,
                timestamp: c.timestamp,
                refs: union_refs(a.cand.refs, c.refs),
            },
            rank,
        }
    } else {
        RankedModel {
            cand: CandidateModel { refs: union_refs(a.cand.refs, c.refs), ..a.cand },
            rank: a.rank,
        }
    }
}

/// Merging one candidate reported at registration rank `rank` into the
/// accumulated list: combined with the existing record of the same source,
/// or appended as a new record.
pub open spec fn merge_one(acc: Seq<RankedModel>, c: CandidateModel, rank: int) -> Seq<
    RankedModel,
> {
    let j = uri_index(acc, c.uri);
    if j < acc.len() {
        acc.update(j, combine(acc[j], c, rank))
    } else {
        acc.push(RankedModel { cand: c, rank })
    }
}

/// Merging a backend's candidate list, in reported order.
pub open spec fn merge_list(acc: Seq<RankedModel>, cs: Seq<CandidateModel>, rank: int) -> Seq<
    RankedModel,
>
    decreases cs.len(),
{
    if cs.len() == 0 {
        acc
    } else {
        merge_list(merge_one(acc, cs[0], rank), cs.drop_first(), rank)
    }
}

/// Merging the outcomes of the backends from registration rank `rank` on.
pub open spec fn merge_outcomes_from(
    acc: Seq<RankedModel>,
    os: Seq<OutcomeModel>,
    rank: int,
) -> Seq<RankedModel>
    decreases os.len(),
{
    if os.len() == 0 {
        acc
    } else {
        merge_outcomes_from(merge_list(acc, contributions(os[0]), rank), os.drop_first(), rank + 1)
    }
}

/// The deduplicated union of all backend contributions, in registration order.
pub open spec fn merged(os: Seq<OutcomeModel>) -> Seq<RankedModel> {
    merge_outcomes_from(Seq::empty(), os, 0)
}

/// The ranking order: priority ascending, then timestamp descending, then
/// registration rank ascending.
pub open spec fn ranked_le(a: RankedModel, b: RankedModel) -> bool {
    ||| a.cand.priority < b.cand.priority
    ||| (a.cand.priority == b.cand.priority && a.cand.timestamp > b.cand.timestamp)
    ||| (a.cand.priority == b.cand.priority && a.cand.timestamp == b.cand.timestamp && a.rank
        <= b.rank)
}

/// Insertion into a sorted list: `c` goes before the first element it must
/// precede.
pub open spec fn insert_ranked(s: Seq<RankedModel>, c: RankedModel) -> Seq<RankedModel>
    decreases s.len(),
{
    if s.len() == 0 {
        seq![c]
    } else if ranked_le(s[0], c) {
        seq![s[0]] + insert_ranked(s.drop_first(), c)
    } else {
        seq![c] + s
    }
}

/// Insertion sort of the merged candidates, front to back.
pub open spec fn sort_from(acc: Seq<RankedModel>, s: Seq<RankedModel>) -> Seq<RankedModel>
    decreases s.len(),
{
    if s.len() == 0 {
        acc
    } else {
        sort_from(insert_ranked(acc, s[0]), s.drop_first())
    }
}

/// The merged candidates in ranking order.
pub open spec fn sort_ranked(s: Seq<RankedModel>) -> Seq<RankedModel> {
    sort_from(Seq::empty(), s)
}

/// The full resolution pipeline on models: merge, deduplicate, rank, and
/// hand out the candidate records.
pub open spec fn spec_resolve(os: Seq<OutcomeModel>) -> Seq<CandidateModel> {
    sort_ranked(merged(os)).map_values(|r: RankedModel| r.cand)
}

/// A content reference is valid when it is non-empty and free of whitespace
/// and newlines.
pub open spec fn valid_ref(r: Seq<u8>) -> bool {
    &&& r.len() > 0
    &&& forall|i: int|
        0 <= i < r.len() ==> #[trigger] r[i] != crate::document::NL && !crate::document::is_ws(
            r[i],
        )
}

/// A reference set is valid when it is non-empty and every reference in it
/// is valid.
pub open spec fn refs_valid(rs: Seq<Seq<u8>>) -> bool {
    &&& rs.len() > 0
    &&& forall|i: int| 0 <= i < rs.len() ==> valid_ref(#[trigger] rs[i])
}

/// Pairwise sortedness under the ranking order.
pub open spec fn sorted_ranked(s: Seq<RankedModel>) -> bool {
    forall|i: int, j: int| 0 <= i < j < s.len() ==> ranked_le(#[trigger] s[i], #[trigger] s[j])
}

/// The ranking order is total.
pub proof fn lemma_ranked_le_total(a: RankedModel, b: RankedModel)
    ensures
        ranked_le(a, b) || ranked_le(b, a),
{
}

/// The ranking order is transitive.
pub proof fn lemma_ranked_le_trans(a: RankedModel, b: RankedModel, c: RankedModel)
    requires
        ranked_le(a, b),
        ranked_le(b, c),
    ensures
        ranked_le(a, c),
{
}

/// Insertion keeps a sorted list sorted; the result holds the inserted
/// element and the elements of the input.
pub proof fn lemma_insert_sorted(s: Seq<RankedModel>, c: RankedModel)
    requires
        sorted_ranked(s),
    ensures
        sorted_ranked(insert_ranked(s, c)),
        insert_ranked(s, c).len() == s.len() + 1,
        forall|k: int|
            0 <= k < insert_ranked(s, c).len() ==> #[trigger] insert_ranked(s, c)[k] == c
                || s.contains(insert_ranked(s, c)[k]),
    decreases s.len(),
{
    let r = insert_ranked(s, c);
    if s.len() == 0 {
    } else if ranked_le(s[0], c) {
        let rest = s.drop_first();
        assert(sorted_ranked(rest)) by {
            assert(forall|m: int| 0 <= m < rest.len() ==> #[trigger] rest[m] == s[m + 1]);
        }
        lemma_insert_sorted(rest, c);
        let ri = insert_ranked(rest, c);
        assert forall|i: int, j: int| 0 <= i < j < r.len() implies ranked_le(
            #[trigger] r[i],
            #[trigger] r[j],
        ) by {
            if i == 0 {
                assert(r[j] == ri[j - 1]);
                if ri[j - 1] == c {
                } else {
                    assert(rest.contains(ri[j - 1]));
                    let m = choose|m: int| 0 <= m < rest.len() && rest[m] == ri[j - 1];
                    assert(ranked_le(s[0], s[m + 1]));
                }
            } else {
                assert(r[i] == ri[i - 1]);
                assert(r[j] == ri[j - 1]);
            }
        }
        assert forall|k: int| 0 <= k < r.len() implies #[trigger] r[k] == c || s.contains(
            r[k],
        ) by {
            if k == 0 {
                assert(s[0] == s[0]);
                assert(s.contains(s[0]));
            } else {
                assert(r[k] == ri[k - 1]);
                if ri[k - 1] != c {
                    assert(rest.contains(ri[k - 1]));
                    let m = choose|m: int| 0 <= m < rest.len() && rest[m] == ri[k - 1];
                    assert(s[m + 1] == r[k]);
                    assert(s.contains(s[m + 1]));
                }
            }
        }
    } else {
        lemma_ranked_le_total(s[0], c);
        assert forall|i: int, j: int| 0 <= i < j < r.len() implies ranked_le(
            #[trigger] r[i],
            #[trigger] r[j],
        ) by {
            if i == 0 {
                assert(r[j] == s[j - 1]);
                if j == 1 {
                } else {
                    assert(ranked_le(s[0], s[j - 1]));
                    lemma_ranked_le_trans(c, s[0], s[j - 1]);
                }
            } else {
                assert(r[i] == s[i - 1]);
                assert(r[j] == s[j - 1]);
            }
        }
        assert forall|k: int| 0 <= k < r.len() implies #[trigger] r[k] == c || s.contains(
            r[k],
        ) by {
            if k > 0 {
                assert(r[k] == s[k - 1]);
                assert(s.contains(s[k - 1]));
            }
        }
    }
}

/// Sorting yields a sorted list.
pub proof fn lemma_sort_from_sorted(acc: Seq<RankedModel>, s: Seq<RankedModel>)
    requires
        sorted_ranked(acc),
    ensures
        sorted_ranked(sort_from(acc, s)),
    decreases s.len(),
{
    if s.len() > 0 {
        lemma_insert_sorted(acc, s[0]);
        lemma_sort_from_sorted(insert_ranked(acc, s[0]), s.drop_first());
    }
}

/// The resolution result is sorted by priority ascending, then timestamp
/// descending, then registration rank ascending.
pub proof fn lemma_resolve_sorted(os: Seq<OutcomeModel>)
    ensures
        sorted_ranked(sort_ranked(merged(os))),
{
    lemma_sort_from_sorted(Seq::empty(), merged(os));
}

/// Any index satisfying the first-source characterization is `uri_index`.
pub proof fn lemma_uri_index_unique(acc: Seq<RankedModel>, u: Seq<u8>, i: int)
    requires
        0 <= i <= acc.len(),
        forall|m: int| 0 <= m < i ==> (#[trigger] acc[m]).cand.uri != u,
        i < acc.len() ==> acc[i].cand.uri == u,
    ensures
        uri_index(acc, u) == i,
    decreases acc.len(),
{
    if i == 0 {
    } else {
        assert(acc[0].cand.uri != u);
        lemma_uri_index_unique(acc.drop_first(), u, i - 1);
    }
}

/// Inserting at the first position whose element need not precede `c` is
/// `insert_ranked`.
pub proof fn lemma_insert_ranked_at(s: Seq<RankedModel>, c: RankedModel, p: int)
    requires
        0 <= p <= s.len(),
        forall|m: int| 0 <= m < p ==> ranked_le(#[trigger] s[m], c),
        p < s.len() ==> !ranked_le(s[p], c),
    ensures
        insert_ranked(s, c) == s.take(p) + seq![c] + s.skip(p),
    decreases s.len(),
{
    if p == 0 {
        if s.len() == 0 {
            assert(insert_ranked(s, c) =~= s.take(0) + seq![c] + s.skip(0));
        } else {
            assert(insert_ranked(s, c) =~= s.take(0) + seq![c] + s.skip(0));
        }
    } else {
        assert(ranked_le(s[0], c));
        let rest = s.drop_first();
        assert forall|m: int| 0 <= m < p - 1 implies ranked_le(#[trigger] rest[m], c) by {
            assert(rest[m] == s[m + 1]);
        }
        if p - 1 < rest.len() {
            assert(rest[p - 1] == s[p]);
        }
        lemma_insert_ranked_at(rest, c, p - 1);
        assert(insert_ranked(s, c) =~= s.take(p) + seq![c] + s.skip(p)) by {
            assert(insert_ranked(s, c) == seq![s[0]] + insert_ranked(rest, c));
            assert(insert_ranked(rest, c) == rest.take(p - 1) + seq![c] + rest.skip(p - 1));
            assert(forall|m: int| 0 <= m < p - 1 ==> #[trigger] rest.take(p - 1)[m] == s[m + 1]);
            assert(forall|m: int|
                0 <= m < rest.skip(p - 1).len() ==> #[trigger] rest.skip(p - 1)[m] == s[m + p]);
        }
    }
}

/// Whether `x` occurs in the list of references.
fn contains_bytes(v: &Vec<Vec<u8>>, x: &Vec<u8>) -> (r: bool)
    ensures
        r == refs_model(v@).contains(x@),
{
    let mut i: usize = 0;
    while i < v.len()
        invariant
            i <= v@.len(),
            forall|k: int| 0 <= k < i ==> #[trigger] refs_model(v@)[k] != x@,
        decreases v.len() - i,
    {
        if bytes_eq(&v[i], x) {
            proof {
                assert(refs_model(v@)[i as int] == x@);
            }
            return true;
        }
        i = i + 1;
    }
    proof {
        assert(!refs_model(v@).contains(x@));
    }
    false
}

/// Copies a list of references.
fn clone_refs(v: &Vec<Vec<u8>>) -> (r: Vec<Vec<u8>>)
    ensures
        refs_model(r@) == refs_model(v@),
{
    let mut r: Vec<Vec<u8>> = Vec::new();
    let mut i: usize = 0;
    while i < v.len()
        invariant
            i <= v@.len(),
            r@.len() == i,
            forall|k: int| 0 <= k < i ==> (#[trigger] r@[k])@ == v@[k]@,
        decreases v.len() - i,
    {
        r.push(clone_bytes(&v[i]));
        i = i + 1;
    }
    proof {
        assert(refs_model(r@) =~= refs_model(v@));
    }
    r
}

/// Copies a candidate record.
fn clone_result(c: &RepoFinderResult) -> (r: RepoFinderResult)
    ensures
        r@ == c@,
{
    RepoFinderResult {
        uri: clone_bytes(&c.uri),
        keyring: clone_bytes(&c.keyring),
        priority: c.priority,
        timestamp: c.timestamp,
        refs: clone_refs(&c.refs),
    }
}

/// Union of two claimed-reference lists.
fn union_refs_exec(a: &Vec<Vec<u8>>, b: &Vec<Vec<u8>>) -> (r: Vec<Vec<u8>>)
    ensures
        refs_model(r@) == union_refs(refs_model(a@), refs_model(b@)),
{
    let mut r = clone_refs(a);
    let mut j: usize = 0;
    proof {
        assert(refs_model(b@).skip(0) =~= refs_model(b@));
    }
    while j < b.len()
        invariant
            j <= b@.len(),
            union_refs(refs_model(r@), refs_model(b@).skip(j as int)) == union_refs(
                refs_model(a@),
                refs_model(b@),
            ),
        decreases b.len() - j,
    {
        let ghost prev = refs_model(r@);
        let ghost rest = refs_model(b@).skip(j as int);
        proof {
            assert(rest[0] == refs_model(b@)[j as int]);
            assert(refs_model(b@)[j as int] == b@[j as int]@);
            assert(rest.drop_first() =~= refs_model(b@).skip(j + 1));
        }
        if !contains_bytes(&r, &b[j]) {
            r.push(clone_bytes(&b[j]));
            proof {
                assert(refs_model(r@) =~= prev.push(rest[0]));
            }
        }
        j = j + 1;
    }
    proof {
        assert(refs_model(b@).skip(b@.len() as int) =~= Seq::<Seq<u8>>::empty());
    }
    r
}

/// Merges one reported candidate into the accumulated list.
fn merge_into(acc: &mut Vec<RankedCandidate>, c: &RepoFinderResult, rank: usize)
    ensures
        ranked_model(final(acc)@) == merge_one(ranked_model(old(acc)@), c@, rank as int),
{
    let n = acc.len();
    let mut scan: usize = 0;
    let mut found: bool = false;
    let mut j: usize = 0;
    while scan < n
        invariant
            scan <= n,
            n == acc@.len(),
            *acc == *old(acc),
            !found ==> forall|m: int|
                0 <= m < scan ==> (#[trigger] ranked_model(acc@)[m]).cand.uri != c@.uri,
            found ==> j < scan && ranked_model(acc@)[j as int].cand.uri == c@.uri && forall|m: int|
                0 <= m < j ==> (#[trigger] ranked_model(acc@)[m]).cand.uri != c@.uri,
        decreases n - scan,
    {
        if !found && bytes_eq(&acc[scan].result.uri, &c.uri) {
            found = true;
            j = scan;
            proof {
                assert(ranked_model(acc@)[j as int].cand.uri == c@.uri);
            }
        }
        scan = scan + 1;
    }
    if found {
        proof {
            lemma_uri_index_unique(ranked_model(acc@), c@.uri, j as int);
        }
        let merged_refs = union_refs_exec(&acc[j].result.refs, &c.refs);
        let newer = c.timestamp > acc[j].result.timestamp;
        let nc = if newer {
            RankedCandidate {
                result: RepoFinderResult {
                    uri: clone_bytes(&acc[j].result.uri),
                    keyring: clone_bytes(&c.keyring),
                    priority: c.priority,
                    timestamp: c.timestamp,
                    refs: merged_refs,
                },
                rank,
            }
        } else {
            RankedCandidate {
                result: RepoFinderResult {
                    uri: clone_bytes(&acc[j].result.uri),
                    keyring: clone_bytes(&acc[j].result.keyring),
                    priority: acc[j].result.priority,
                    timestamp: acc[j].result.timestamp,
                    refs: merged_refs,
                },
                rank: acc[j].rank,
            }
        };
        proof {
            assert(nc@ == combine(ranked_model(acc@)[j as int], c@, rank as int));
        }
        acc.set(j, nc);
        proof {
            assert(ranked_model(acc@) =~= merge_one(ranked_model(old(acc)@), c@, rank as int));
        }
    } else {
        proof {
            lemma_uri_index_unique(ranked_model(acc@), c@.uri, acc@.len() as int);
        }
        acc.push(RankedCandidate { result: clone_result(c), rank });
        proof {
            assert(ranked_model(acc@) =~= merge_one(ranked_model(old(acc)@), c@, rank as int));
        }
    }
}

/// Merges every backend outcome, in registration order.
fn merge_outcomes(outcomes: &Vec<BackendOutcome>) -> (acc: Vec<RankedCandidate>)
    ensures
        ranked_model(acc@) == merged(outcomes_model(outcomes@)),
{
    let ghost os = outcomes_model(outcomes@);
    let mut acc: Vec<RankedCandidate> = Vec::new();
    let mut i: usize = 0;
    proof {
        assert(os.skip(0) =~= os);
        assert(ranked_model(acc@) =~= Seq::<RankedModel>::empty());
    }
    while i < outcomes.len()
        invariant
            i <= outcomes@.len(),
            os == outcomes_model(outcomes@),
            merge_outcomes_from(ranked_model(acc@), os.skip(i as int), i as int) == merged(os),
        decreases outcomes.len() - i,
    {
        let ghost entry = ranked_model(acc@);
        let ghost rest = os.skip(i as int);
        proof {
            assert(rest[0] == os[i as int]);
            assert(os[i as int] == outcomes@[i as int]@);
            assert(rest.drop_first() =~= os.skip(i + 1));
        }
        match &outcomes[i] {
            BackendOutcome::Responded(cs) => {
                let ghost csm = candidates_model(cs@);
                let mut k: usize = 0;
                proof {
                    assert(csm.skip(0) =~= csm);
                    assert(contributions(os[i as int]) == csm);
                }
                while k < cs.len()
                    invariant
                        k <= cs@.len(),
                        csm == candidates_model(cs@),
                        merge_list(ranked_model(acc@), csm.skip(k as int), i as int) == merge_list(
                            entry,
                            csm,
                            i as int,
                        ),
                        i < outcomes@.len(),
                    decreases cs.len() - k,
                {
                    let ghost crest = csm.skip(k as int);
                    proof {
                        assert(crest[0] == csm[k as int]);
                        assert(csm[k as int] == cs@[k as int]@);
                        assert(crest.drop_first() =~= csm.skip(k + 1));
                    }
                    merge_into(&mut acc, &cs[k], i);
                    k = k + 1;
                }
                proof {
                    assert(csm.skip(cs@.len() as int) =~= Seq::<CandidateModel>::empty());
                }
            },
            BackendOutcome::Failed => {},
            BackendOutcome::TimedOut => {},
        }
        proof {
            assert(ranked_model(acc@) == merge_list(entry, contributions(os[i as int]), i as int));
        }
        i = i + 1;
    }
    proof {
        assert(os.skip(outcomes@.len() as int) =~= Seq::<OutcomeModel>::empty());
    }
    acc
}

/// The ranking comparison on candidate records.
fn ranked_le_exec(a: &RankedCandidate, b: &RankedCandidate) -> (r: bool)
    ensures
        r == ranked_le(a@, b@),
{
    if a.result.priority < b.result.priority {
        true
    } else if a.result.priority == b.result.priority {
        if a.result.timestamp > b.result.timestamp {
            true
        } else if a.result.timestamp == b.result.timestamp {
            a.rank <= b.rank
        } else {
            false
        }
    } else {
        false
    }
}

/// Inserts a candidate into an already ranked list.
fn insert_sorted(out: &mut Vec<RankedCandidate>, c: RankedCandidate)
    ensures
        ranked_model(final(out)@) == insert_ranked(ranked_model(old(out)@), c@),
{
    let ghost s = ranked_model(out@);
    let n = out.len();
    let mut scan: usize = 0;
    let mut stop: bool = false;
    let mut p: usize = 0;
    while scan < n
        invariant
            scan <= n,
            n == out@.len(),
            *out == *old(out),
            !stop ==> forall|m: int| 0 <= m < scan ==> ranked_le(#[trigger] ranked_model(out@)[m], c@),
            stop ==> p < scan && !ranked_le(ranked_model(out@)[p as int], c@) && forall|m: int|
                0 <= m < p ==> ranked_le(#[trigger] ranked_model(out@)[m], c@),
        decreases n - scan,
    {
        if !stop && !ranked_le_exec(&out[scan], &c) {
            stop = true;
            p = scan;
        }
        scan = scan + 1;
    }
    if !stop {
        p = n;
    }
    proof {
        lemma_insert_ranked_at(s, c@, p as int);
    }
    out.insert(p, c);
    proof {
        assert(ranked_model(out@) =~= s.take(p as int) + seq![c@] + s.skip(p as int));
    }
}

/// Sorts the merged candidates into ranking order.
fn sort_candidates(v: &Vec<RankedCandidate>) -> (out: Vec<RankedCandidate>)
    ensures
        ranked_model(out@) == sort_ranked(ranked_model(v@)),
{
    let ghost s = ranked_model(v@);
    let mut out: Vec<RankedCandidate> = Vec::new();
    let mut i: usize = 0;
    proof {
        assert(s.skip(0) =~= s);
        assert(ranked_model(out@) =~= Seq::<RankedModel>::empty());
    }
    while i < v.len()
        invariant
            i <= v@.len(),
            s == ranked_model(v@),
            sort_from(ranked_model(out@), s.skip(i as int)) == sort_ranked(s),
        decreases v.len() - i,
    {
        let ghost rest = s.skip(i as int);
        proof {
            assert(rest[0] == s[i as int]);
            assert(s[i as int] == v@[i as int]@);
            assert(rest.drop_first() =~= s.skip(i + 1));
        }
        let c = RankedCandidate { result: clone_result(&v[i].result), rank: v[i].rank };
        insert_sorted(&mut out, c);
        i = i + 1;
    }
    proof {
        assert(s.skip(v@.len() as int) =~= Seq::<RankedModel>::empty());
    }
    out
}

/// A caller-level resolution error. Individual backend failures are never
/// surfaced here: they degrade to an empty contribution.
#[derive(Clone, Copy, Debug, PartialEq, Eq, Structural)]
pub enum ResolveError {
    /// The reference set was empty or held a malformed reference.
    InvalidArgument,
    /// The caller's cancellation signal was raised.
    Cancelled,
}

/// One registered finder backend: identity, capability flags, and (by its
/// position in the registry) a tie-breaking rank.
pub struct BackendRegistration {
    /// Backend identity.
    pub id: Vec<u8>,
    /// Whether the backend can read static configuration.
    pub supports_static_config: bool,
    /// Whether the backend performs network discovery.
    pub supports_network_discovery: bool,
}

/// The registry of finder backends, established at startup and read-only
/// during resolution. Registration order is the tie-breaking rank.
pub struct FinderRegistry {
    backends: Vec<BackendRegistration>,
}

impl View for FinderRegistry {
    type V = Seq<BackendRegistration>;

    closed spec fn view(&self) -> Seq<BackendRegistration> {
        self.backends@
    }
}

impl FinderRegistry {
    /// An empty registry: resolution over it returns no candidates.
    pub fn new() -> (r: Self)
        ensures
            r@ == Seq::<BackendRegistration>::empty(),
    {
        let r = FinderRegistry { backends: Vec::new() };
        proof {
            assert(r@ =~= Seq::<BackendRegistration>::empty());
        }
        r
    }

    /// Appends one backend; its rank is its position.
    pub fn register(&mut self, backend: BackendRegistration)
        ensures
            final(self)@ == old(self)@.push(backend),
    {
        self.backends.push(backend);
    }

    /// Number of registered backends.
    pub fn backend_count(&self) -> (n: usize)
        ensures
            n == self@.len(),
    {
        self.backends.len()
    }
}

/// Whether one content reference is valid.
fn check_ref(r: &Vec<u8>) -> (ok: bool)
    ensures
        ok == valid_ref(r@),
{
    if r.len() == 0 {
        return false;
    }
    let mut i: usize = 0;
    while i < r.len()
        invariant
            i <= r@.len(),
            forall|k: int|
                0 <= k < i ==> #[trigger] r@[k] != crate::document::NL && !crate::document::is_ws(
                    r@[k],
                ),
        decreases r.len() - i,
    {
        let b = r[i];
        if b == crate::document::NL || b == crate::document::SP || b == crate::document::TAB {
            return false;
        }
        i = i + 1;
    }
    true
}

/// Resolves a set of content references against the outcomes of querying
/// every registered backend, one outcome per backend in registration order.
///
/// The reference set is validated first: an empty set or a malformed
/// reference is rejected. A raised cancellation signal is reported next.
/// Otherwise the call always succeeds: backend contributions are merged,
/// candidates with the same source identity are combined into one record,
/// and the result is ordered by priority ascending, then timestamp
/// descending, then registration rank ascending. Failed or timed-out
/// backends contribute nothing and raise no error; with no backends
/// registered the result is empty.
pub fn resolve(
    registry: &FinderRegistry,
    refs: &Vec<Vec<u8>>,
    outcomes: &Vec<BackendOutcome>,
    cancelled: bool,
) -> (r: Result<Vec<RepoFinderResult>, ResolveError>)
    requires
        outcomes@.len() == registry@.len(),
    ensures
        r matches Err(ResolveError::InvalidArgument) <==> !refs_valid(refs_model(refs@)),
        r matches Err(ResolveError::Cancelled) <==> refs_valid(refs_model(refs@)) && cancelled,
        r matches Ok(v) ==> candidates_model(v@) == spec_resolve(outcomes_model(outcomes@)),
        r is Ok <==> refs_valid(refs_model(refs@)) && !cancelled,
{
    if refs.len() == 0 {
        return Err(ResolveError::InvalidArgument);
    }
    let mut i: usize = 0;
    while i < refs.len()
        invariant
            i <= refs@.len(),
            forall|k: int| 0 <= k < i ==> valid_ref(#[trigger] refs_model(refs@)[k]),
        decreases refs.len() - i,
    {
        if !check_ref(&refs[i]) {
            proof {
                assert(refs_model(refs@)[i as int] == refs@[i as int]@);
            }
            return Err(ResolveError::InvalidArgument);
        }
        proof {
            assert(refs_model(refs@)[i as int] == refs@[i as int]@);
        }
        i = i + 1;
    }
    if cancelled {
        return Err(ResolveError::Cancelled);
    }
    let merged_list = merge_outcomes(outcomes);
    let sorted = sort_candidates(&merged_list);
    let mut out: Vec<RepoFinderResult> = Vec::new();
    let mut j: usize = 0;
    while j < sorted.len()
        invariant
            j <= sorted@.len(),
            out@.len() == j,
            forall|m: int| 0 <= m < j ==> (#[trigger] out@[m])@ == ranked_model(sorted@)[m].cand,
        decreases sorted.len() - j,
    {
        out.push(clone_result(&sorted[j].result));
        j = j + 1;
    }
    proof {
        assert(candidates_model(out@) =~= ranked_model(sorted@).map_values(
            |r: RankedModel| r.cand,
        ));
    }
    Ok(out)
}

/// Merging depends only on what each outcome contributes.
pub proof fn lemma_merge_congruence(
    acc: Seq<RankedModel>,
    os1: Seq<OutcomeModel>,
    os2: Seq<OutcomeModel>,
    rank: int,
)
    requires
        os1.len() == os2.len(),
        forall|j: int| 0 <= j < os1.len() ==> contributions(#[trigger] os1[j]) == contributions(
            os2[j],
        ),
    ensures
        merge_outcomes_from(acc, os1, rank) == merge_outcomes_from(acc, os2, rank),
    decreases os1.len(),
{
    if os1.len() > 0 {
        assert(contributions(os1[0]) == contributions(os2[0]));
        assert forall|j: int| 0 <= j < os1.drop_first().len() implies contributions(
            #[trigger] os1.drop_first()[j],
        ) == contributions(os2.drop_first()[j]) by {
            assert(os1.drop_first()[j] == os1[j + 1]);
            assert(os2.drop_first()[j] == os2[j + 1]);
        }
        lemma_merge_congruence(
            merge_list(acc, contributions(os1[0]), rank),
            os1.drop_first(),
            os2.drop_first(),
            rank + 1,
        );
    }
}

/// Graceful degradation: a backend that raises an internal error contributes
/// exactly as much as one that responds with no candidates — the other
/// backends' merged results are returned unchanged, and no error is raised.
pub proof fn lemma_backend_failure_degrades(os: Seq<OutcomeModel>, i: int)
    requires
        0 <= i < os.len(),
    ensures
        spec_resolve(os.update(i, OutcomeModel::Failed)) == spec_resolve(
            os.update(i, OutcomeModel::Responded(Seq::empty())),
        ),
{
    let os1 = os.update(i, OutcomeModel::Failed);
    let os2 = os.update(i, OutcomeModel::Responded(Seq::empty()));
    assert forall|j: int| 0 <= j < os1.len() implies contributions(#[trigger] os1[j])
        == contributions(os2[j]) by {
        if j != i {
            assert(os1[j] == os[j]);
            assert(os2[j] == os[j]);
        }
    }
    lemma_merge_congruence(Seq::empty(), os1, os2, 0);
}

/// A backend that misses the deadline contributes zero candidates: the
/// result equals that of the same backend responding with no candidates.
pub proof fn lemma_timeout_degrades(os: Seq<OutcomeModel>, i: int)
    requires
        0 <= i < os.len(),
    ensures
        spec_resolve(os.update(i, OutcomeModel::TimedOut)) == spec_resolve(
            os.update(i, OutcomeModel::Responded(Seq::empty())),
        ),
{
    let os1 = os.update(i, OutcomeModel::TimedOut);
    let os2 = os.update(i, OutcomeModel::Responded(Seq::empty()));
    assert forall|j: int| 0 <= j < os1.len() implies contributions(#[trigger] os1[j])
        == contributions(os2[j]) by {
        if j != i {
            assert(os1[j] == os[j]);
            assert(os2[j] == os[j]);
        }
    }
    lemma_merge_congruence(Seq::empty(), os1, os2, 0);
}

/// Resolution is deterministic: the output and its ordering are a pure
/// function of the backend outcomes — the priorities, timestamps and
/// registration ranks — so repeated calls on identical inputs yield
/// identical ordering.
pub proof fn lemma_resolution_deterministic(
    os: Seq<OutcomeModel>,
    r1: Seq<CandidateModel>,
    r2: Seq<CandidateModel>,
)
    requires
        r1 == spec_resolve(os),
        r2 == spec_resolve(os),
    ensures
        r1 == r2,
{
}

/// How many merged entries carry source identity `u`.
pub open spec fn count_uri(s: Seq<RankedModel>, u: Seq<u8>) -> int
    decreases s.len(),
{
    if s.len() == 0 {
        0
    } else {
        (if s[0].cand.uri == u {
            1int
        } else {
            0int
        }) + count_uri(s.drop_first(), u)
    }
}

/// How many result entries carry source identity `u`.
pub open spec fn count_sources(s: Seq<CandidateModel>, u: Seq<u8>) -> int
    decreases s.len(),
{
    if s.len() == 0 {
        0
    } else {
        (if s[0].uri == u {
            1int
        } else {
            0int
        }) + count_sources(s.drop_first(), u)
    }
}

/// Whether any backend reported a candidate with source identity `u`.
pub open spec fn uri_reported(os: Seq<OutcomeModel>, u: Seq<u8>) -> bool {
    exists|i: int, j: int|
        0 <= i < os.len() && 0 <= j < contributions(os[i]).len() && (#[trigger] contributions(
            os[i],
        )[j]).uri == u
}

/// Counts are non-negative.
pub proof fn lemma_count_nonneg(s: Seq<RankedModel>, u: Seq<u8>)
    ensures
        count_uri(s, u) >= 0,
    decreases s.len(),
{
    if s.len() > 0 {
        lemma_count_nonneg(s.drop_first(), u);
    }
}

/// Updating an entry without changing its source identity keeps every count.
pub proof fn lemma_count_update_same_uri(s: Seq<RankedModel>, j: int, x: RankedModel, u: Seq<u8>)
    requires
        0 <= j < s.len(),
        x.cand.uri == s[j].cand.uri,
    ensures
        count_uri(s.update(j, x), u) == count_uri(s, u),
    decreases s.len(),
{
    let t = s.update(j, x);
    if j == 0 {
        assert(t.drop_first() =~= s.drop_first());
    } else {
        assert(t[0] == s[0]);
        assert(t.drop_first() =~= s.drop_first().update(j - 1, x));
        lemma_count_update_same_uri(s.drop_first(), j - 1, x, u);
    }
}

/// Appending an entry adds one to the count of its own source identity.
pub proof fn lemma_count_push(s: Seq<RankedModel>, x: RankedModel, u: Seq<u8>)
    ensures
        count_uri(s.push(x), u) == count_uri(s, u) + (if x.cand.uri == u {
            1int
        } else {
            0int
        }),
    decreases s.len(),
{
    let t = s.push(x);
    assert(t.len() == s.len() + 1);
    if s.len() == 0 {
        assert(t[0] == x);
        assert(t.drop_first() =~= Seq::<RankedModel>::empty());
        assert(count_uri(t.drop_first(), u) == 0);
        assert(count_uri(t, u) == (if t[0].cand.uri == u { 1int } else { 0int }) + count_uri(t.drop_first(), u));
        assert(count_uri(s, u) == 0);
    } else {
        assert(t[0] == s[0]);
        assert(t.drop_first() =~= s.drop_first().push(x));
        lemma_count_push(s.drop_first(), x, u);
        assert(count_uri(t, u) == (if t[0].cand.uri == u { 1int } else { 0int }) + count_uri(t.drop_first(), u));
        assert(count_uri(s, u) == (if s[0].cand.uri == u { 1int } else { 0int }) + count_uri(s.drop_first(), u));
    }
}

/// A source identity is present exactly when its count is positive.
pub proof fn lemma_uri_index_count(s: Seq<RankedModel>, u: Seq<u8>)
    ensures
        (uri_index(s, u) == s.len()) <==> (count_uri(s, u) == 0),
        uri_index(s, u) <= s.len(),
    decreases s.len(),
{
    lemma_count_nonneg(s, u);
    if s.len() > 0 {
        lemma_uri_index_count(s.drop_first(), u);
        lemma_count_nonneg(s.drop_first(), u);
    }
}

/// How `merge_one` changes each count: unchanged when the source is already
/// present or different, one more when a new source appears.
pub proof fn lemma_merge_one_count(acc: Seq<RankedModel>, c: CandidateModel, rank: int, u: Seq<u8>)
    ensures
        count_uri(merge_one(acc, c, rank), u) == count_uri(acc, u) + (if c.uri == u && uri_index(
            acc,
            u,
        ) == acc.len() {
            1int
        } else {
            0int
        }),
{
    lemma_uri_index_count(acc, c.uri);
    let j = uri_index(acc, c.uri);
    if j < acc.len() {
        lemma_uri_index_unique_inv(acc, c.uri);
        assert(acc[j].cand.uri == c.uri);
        assert(combine(acc[j], c, rank).cand.uri == acc[j].cand.uri);
        lemma_count_update_same_uri(acc, j, combine(acc[j], c, rank), u);
        if c.uri == u {
            lemma_uri_index_count(acc, u);
        }
    } else {
        lemma_count_push(acc, RankedModel { cand: c, rank }, u);
    }
}

/// `uri_index` points at a matching entry when within bounds.
pub proof fn lemma_uri_index_unique_inv(acc: Seq<RankedModel>, u: Seq<u8>)
    ensures
        0 <= uri_index(acc, u) <= acc.len(),
        uri_index(acc, u) < acc.len() ==> acc[uri_index(acc, u)].cand.uri == u,
    decreases acc.len(),
{
    if acc.len() > 0 && acc[0].cand.uri != u {
        lemma_uri_index_unique_inv(acc.drop_first(), u);
        if uri_index(acc, u) < acc.len() {
            assert(acc[uri_index(acc, u)] == acc.drop_first()[uri_index(acc, u) - 1]);
        }
    }
}

/// At most one entry per source identity.
pub open spec fn dedup_uris(s: Seq<RankedModel>) -> bool {
    forall|u: Seq<u8>| #[trigger] count_uri(s, u) <= 1
}

/// Merging a candidate list preserves deduplication, never loses a source,
/// and introduces no source that was not reported.
pub proof fn lemma_merge_list_props(
    acc: Seq<RankedModel>,
    cs: Seq<CandidateModel>,
    rank: int,
    u: Seq<u8>,
)
    ensures
        dedup_uris(acc) ==> dedup_uris(merge_list(acc, cs, rank)),
        ((exists|j: int| 0 <= j < cs.len() && (#[trigger] cs[j]).uri == u) || count_uri(acc, u)
            >= 1) ==> count_uri(merge_list(acc, cs, rank), u) >= 1,
        (!(exists|j: int| 0 <= j < cs.len() && (#[trigger] cs[j]).uri == u) && count_uri(acc, u)
            == 0) ==> count_uri(merge_list(acc, cs, rank), u) == 0,
    decreases cs.len(),
{
    if cs.len() > 0 {
        let acc2 = merge_one(acc, cs[0], rank);
        if dedup_uris(acc) {
            assert forall|w: Seq<u8>| #[trigger] count_uri(acc2, w) <= 1 by {
                lemma_merge_one_count(acc, cs[0], rank, w);
                lemma_uri_index_count(acc, w);
            }
        }
        lemma_merge_one_count(acc, cs[0], rank, u);
        lemma_count_nonneg(acc, u);
        lemma_uri_index_count(acc, u);
        lemma_merge_list_props(acc2, cs.drop_first(), rank, u);
        assert forall|j: int|
            0 <= j < cs.drop_first().len() implies #[trigger] cs.drop_first()[j] == cs[j + 1] by {}
        if (exists|j: int| 0 <= j < cs.len() && (#[trigger] cs[j]).uri == u) {
            let j = choose|j: int| 0 <= j < cs.len() && (#[trigger] cs[j]).uri == u;
            if j > 0 {
                assert(cs.drop_first()[j - 1].uri == u);
            }
        }
        if (exists|j: int| 0 <= j < cs.drop_first().len() && (#[trigger] cs.drop_first()[j]).uri
            == u) {
            let j = choose|j: int|
                0 <= j < cs.drop_first().len() && (#[trigger] cs.drop_first()[j]).uri == u;
            assert(cs[j + 1].uri == u);
        }
    }
}

/// Merging all outcomes preserves deduplication; a source ends up present
/// exactly when it was already present or some backend reported it.
pub proof fn lemma_merge_outcomes_props(
    acc: Seq<RankedModel>,
    os: Seq<OutcomeModel>,
    rank: int,
    u: Seq<u8>,
)
    ensures
        dedup_uris(acc) ==> dedup_uris(merge_outcomes_from(acc, os, rank)),
        (uri_reported(os, u) || count_uri(acc, u) >= 1) ==> count_uri(
            merge_outcomes_from(acc, os, rank),
            u,
        ) >= 1,
        (!uri_reported(os, u) && count_uri(acc, u) == 0) ==> count_uri(
            merge_outcomes_from(acc, os, rank),
            u,
        ) == 0,
    decreases os.len(),
{
    if os.len() > 0 {
        let acc2 = merge_list(acc, contributions(os[0]), rank);
        if dedup_uris(acc) {
            assert forall|w: Seq<u8>| #[trigger] count_uri(acc2, w) <= 1 by {
                lemma_merge_list_props(acc, contributions(os[0]), rank, w);
            }
        }
        lemma_merge_list_props(acc, contributions(os[0]), rank, u);
        lemma_merge_outcomes_props(acc2, os.drop_first(), rank + 1, u);
        if uri_reported(os, u) {
            let (i, j) = choose|i: int, j: int|
                0 <= i < os.len() && 0 <= j < contributions(os[i]).len() && (
                #[trigger] contributions(os[i])[j]).uri == u;
            if i == 0 {
                assert(exists|j: int|
                    0 <= j < contributions(os[0]).len() && (#[trigger] contributions(os[0])[j]).uri
                        == u);
                lemma_count_nonneg(acc2, u);
            } else {
                assert(os.drop_first()[i - 1] == os[i]);
                assert(uri_reported(os.drop_first(), u));
            }
        }
        if uri_reported(os.drop_first(), u) {
            let (i, j) = choose|i: int, j: int|
                0 <= i < os.drop_first().len() && 0 <= j < contributions(
                    os.drop_first()[i],
                ).len() && (#[trigger] contributions(os.drop_first()[i])[j]).uri == u;
            assert(os[i + 1] == os.drop_first()[i]);
            assert(uri_reported(os, u));
        }
    }
}

/// Insertion adds one to the count of the inserted element's source.
pub proof fn lemma_insert_count(s: Seq<RankedModel>, c: RankedModel, u: Seq<u8>)
    ensures
        count_uri(insert_ranked(s, c), u) == count_uri(s, u) + (if c.cand.uri == u {
            1int
        } else {
            0int
        }),
    decreases s.len(),
{
    let r = insert_ranked(s, c);
    if s.len() == 0 {
        assert(r[0] == c);
        assert(r.drop_first() =~= Seq::<RankedModel>::empty());
        assert(count_uri(r, u) == (if r[0].cand.uri == u { 1int } else { 0int }) + count_uri(r.drop_first(), u));
        assert(count_uri(s, u) == 0);
    } else if ranked_le(s[0], c) {
        assert(r[0] == s[0]);
        assert(r.drop_first() =~= insert_ranked(s.drop_first(), c));
        lemma_insert_count(s.drop_first(), c, u);
        assert(count_uri(r, u) == (if r[0].cand.uri == u { 1int } else { 0int }) + count_uri(r.drop_first(), u));
        assert(count_uri(s, u) == (if s[0].cand.uri == u { 1int } else { 0int }) + count_uri(s.drop_first(), u));
    } else {
        assert(r[0] == c);
        assert(r.drop_first() =~= s);
        assert(count_uri(r, u) == (if r[0].cand.uri == u { 1int } else { 0int }) + count_uri(r.drop_first(), u));
    }
}

/// Sorting keeps every count.
pub proof fn lemma_sort_from_count(acc: Seq<RankedModel>, s: Seq<RankedModel>, u: Seq<u8>)
    ensures
        count_uri(sort_from(acc, s), u) == count_uri(acc, u) + count_uri(s, u),
    decreases s.len(),
{
    if s.len() > 0 {
        lemma_insert_count(acc, s[0], u);
        lemma_sort_from_count(insert_ranked(acc, s[0]), s.drop_first(), u);
    }
}

/// Handing out the candidate records keeps every count.
pub proof fn lemma_count_map(s: Seq<RankedModel>, u: Seq<u8>)
    ensures
        count_sources(s.map_values(|r: RankedModel| r.cand), u) == count_uri(s, u),
    decreases s.len(),
{
    if s.len() > 0 {
        let m = s.map_values(|r: RankedModel| r.cand);
        assert(m[0] == s[0].cand);
        assert(m.drop_first() =~= s.drop_first().map_values(|r: RankedModel| r.cand));
        lemma_count_map(s.drop_first(), u);
    }
}

/// Deduplication: the resolution result holds exactly one entry for a source
/// identity some backend reported, and none for any other — in particular,
/// two backends reporting the same source URI yield a single merged entry.
pub proof fn lemma_dedup_sources(os: Seq<OutcomeModel>, u: Seq<u8>)
    ensures
        count_sources(spec_resolve(os), u) == (if uri_reported(os, u) {
            1int
        } else {
            0int
        }),
{
    let empty = Seq::<RankedModel>::empty();
    assert forall|w: Seq<u8>| #[trigger] count_uri(empty, w) <= 1 by {}
    lemma_merge_outcomes_props(empty, os, 0, u);
    let m = merged(os);
    lemma_sort_from_count(empty, m, u);
    lemma_count_map(sort_ranked(m), u);
    lemma_count_nonneg(m, u);
}

} // verus!
