//! Which reported lines belong together.
//!
//! Two lines are related if they are of one user and close in time, or less close but in one
//! cluster. Lines belong together if related lines lead from one to the other.

use vstd::prelude::*;
use vstd::set_lib::lemma_set_disjoint_lens;

use crate::fusion::FinalDet;
use crate::record::LogRecord;

verus! {

/// Lines of one cluster are related within this time, in seconds.
pub const INCIDENT_GAP_SECS: i64 = 360;

/// Lines of any clusters are related within this time, in seconds.
pub const CLOSE_SECS: i64 = 90;

/// The time between two lines, in seconds.
pub open spec fn time_between(logs: Seq<LogRecord>, i: usize, j: usize) -> int {
    let gap = logs[i as int].timestamp.epoch - logs[j as int].timestamp.epoch;
    if gap < 0 {
        -gap
    } else {
        gap
    }
}

/// Two lines of one user, close in time, or less close and in one cluster.
pub open spec fn related(
    logs: Seq<LogRecord>,
    dets: Seq<FinalDet>,
    i: usize,
    j: usize,
) -> bool {
    &&& logs[i as int].user_id == logs[j as int].user_id
    &&& {
        ||| time_between(logs, i, j) <= CLOSE_SECS
        ||| time_between(logs, i, j) <= INCIDENT_GAP_SECS && dets[i as int].dbscan_label
            == dets[j as int].dbscan_label
    }
}

/// Steps from line to line, each related to the next, that do not leave the lines `inside`.
pub open spec fn path(
    logs: Seq<LogRecord>,
    dets: Seq<FinalDet>,
    inside: spec_fn(usize) -> bool,
    steps: Seq<usize>,
) -> bool {
    &&& steps.len() > 0
    &&& forall|k: int| 0 <= k < steps.len() ==> inside(#[trigger] steps[k])
    &&& forall|k: int, l: int|
        0 <= k && l == k + 1 && l < steps.len() ==> related(
            logs,
            dets,
            #[trigger] steps[k],
            #[trigger] steps[l],
        )
}

/// Related lines lead from line `a` to line `b`, inside the lines `inside`.
pub open spec fn linked(
    logs: Seq<LogRecord>,
    dets: Seq<FinalDet>,
    inside: spec_fn(usize) -> bool,
    a: usize,
    b: usize,
) -> bool {
    exists|steps: Seq<usize>| #[trigger]
        path(logs, dets, inside, steps) && steps[0] == a && steps.last() == b
}

/// The members of a sequence.
pub open spec fn members_of(part: Seq<usize>) -> spec_fn(usize) -> bool {
    |i: usize| part.contains(i)
}

/// Related lines lead from each of these lines to each other one, without leaving them.
pub open spec fn connected(logs: Seq<LogRecord>, dets: Seq<FinalDet>, part: Seq<usize>) -> bool {
    forall|a: usize, b: usize|
        part.contains(a) && part.contains(b) ==> #[trigger] linked(
            logs,
            dets,
            members_of(part),
            a,
            b,
        )
}

/// One of the parts holds a line.
pub open spec fn in_some_part(parts: Seq<Seq<usize>>, i: usize) -> bool {
    exists|k: int| 0 <= k < parts.len() && (#[trigger] parts[k]).contains(i)
}

/// Lines divided into parts that belong together: every line is in a part, related lines are in
/// the same part, and each part is connected. The lines of a part are in ascending order, and so
/// are the first lines of the parts.
pub open spec fn divided(
    logs: Seq<LogRecord>,
    dets: Seq<FinalDet>,
    lines: Seq<usize>,
    parts: Seq<Seq<usize>>,
) -> bool {
    &&& forall|k: int| 0 <= k < parts.len() ==> (#[trigger] parts[k]).len() > 0
    &&& forall|k: int, m: int, n: int|
        0 <= k < parts.len() && 0 <= m < n < parts[k].len() ==> #[trigger] parts[k][m]
            < #[trigger] parts[k][n]
    &&& forall|k: int, l: int|
        0 <= k < l < parts.len() ==> (#[trigger] parts[k])[0] < (#[trigger] parts[l])[0]
    &&& forall|k: int, i: usize|
        0 <= k < parts.len() && #[trigger] parts[k].contains(i) ==> lines.contains(i)
    &&& forall|i: usize| #[trigger] lines.contains(i) ==> in_some_part(parts, i)
    &&& forall|k: int, l: int, a: usize, b: usize|
        0 <= k < parts.len() && 0 <= l < parts.len() && #[trigger] parts[k].contains(a)
            && #[trigger] parts[l].contains(b) && related(logs, dets, a, b) ==> k == l
    &&& forall|k: int| 0 <= k < parts.len() ==> connected(logs, dets, #[trigger] parts[k])
}

proof fn lemma_linked_self(
    logs: Seq<LogRecord>,
    dets: Seq<FinalDet>,
    inside: spec_fn(usize) -> bool,
    a: usize,
)
    requires
        inside(a),
    ensures
        linked(logs, dets, inside, a, a),
{
    assert(path(logs, dets, inside, seq![a]));
}

proof fn lemma_linked_step(
    logs: Seq<LogRecord>,
    dets: Seq<FinalDet>,
    inside: spec_fn(usize) -> bool,
    a: usize,
    b: usize,
)
    requires
        inside(a),
        inside(b),
        related(logs, dets, a, b),
    ensures
        linked(logs, dets, inside, a, b),
{
    let steps = seq![a, b];
    assert forall|k: int| 0 <= k < steps.len() implies inside(#[trigger] steps[k]) by {
        assert(k == 0 || k == 1);
    }
    assert forall|k: int, l: int| 0 <= k && l == k + 1 && l < steps.len() implies related(
        logs,
        dets,
        #[trigger] steps[k],
        #[trigger] steps[l],
    ) by {
        assert(k == 0);
    }
    assert(path(logs, dets, inside, steps));
}

proof fn lemma_linked_on(
    logs: Seq<LogRecord>,
    dets: Seq<FinalDet>,
    inside: spec_fn(usize) -> bool,
    a: usize,
    b: usize,
    c: usize,
)
    requires
        linked(logs, dets, inside, a, b),
        linked(logs, dets, inside, b, c),
    ensures
        linked(logs, dets, inside, a, c),
{
    let s = choose|s: Seq<usize>| #[trigger]
        path(logs, dets, inside, s) && s[0] == a && s.last() == b;
    let t = choose|t: Seq<usize>| #[trigger]
        path(logs, dets, inside, t) && t[0] == b && t.last() == c;
    let steps = s + t;
    let n = s.len() as int;
    assert forall|k: int| 0 <= k < steps.len() implies inside(#[trigger] steps[k]) by {
        if k < n {
            assert(steps[k] == s[k]);
        } else {
            assert(steps[k] == t[k - n]);
        }
    }
    assert forall|k: int, l: int| 0 <= k && l == k + 1 && l < steps.len() implies related(
        logs,
        dets,
        #[trigger] steps[k],
        #[trigger] steps[l],
    ) by {
        if l < n {
            assert(steps[k] == s[k] && steps[l] == s[l]);
        } else if k >= n {
            assert(steps[k] == t[k - n] && steps[l] == t[l - n]);
        } else {
            assert(steps[k] == s[n - 1] && steps[l] == t[0]);
        }
    }
    assert(path(logs, dets, inside, steps));
    assert(steps[0] == s[0] && steps.last() == t.last());
}

proof fn lemma_linked_wider(
    logs: Seq<LogRecord>,
    dets: Seq<FinalDet>,
    inside: spec_fn(usize) -> bool,
    wider: spec_fn(usize) -> bool,
    a: usize,
    b: usize,
)
    requires
        linked(logs, dets, inside, a, b),
        forall|i: usize| #[trigger] inside(i) ==> wider(i),
    ensures
        linked(logs, dets, wider, a, b),
{
    let s = choose|s: Seq<usize>| #[trigger]
        path(logs, dets, inside, s) && s[0] == a && s.last() == b;
    assert forall|k: int| 0 <= k < s.len() implies wider(#[trigger] s[k]) by {
        assert(inside(s[k]));
    }
    assert(path(logs, dets, wider, s));
}

/// A line is among those whose place in `lines` has the number `c`.
spec fn in_class(lines: Seq<usize>, ids: Seq<usize>, c: usize, i: usize) -> bool {
    exists|p: int| 0 <= p < ids.len() && #[trigger] ids[p] == c && lines[p] == i
}

spec fn class(lines: Seq<usize>, ids: Seq<usize>, c: usize) -> spec_fn(usize) -> bool {
    |i: usize| in_class(lines, ids, c, i)
}

/// The first `ids.len()` lines are numbered: lines have the same number exactly if they belong
/// together, and the number is the first place that has it.
spec fn numbered(
    logs: Seq<LogRecord>,
    dets: Seq<FinalDet>,
    lines: Seq<usize>,
    ids: Seq<usize>,
) -> bool {
    &&& ids.len() <= lines.len()
    &&& forall|p: int|
        0 <= p < ids.len() ==> (#[trigger] ids[p]) <= p && ids[ids[p] as int] == ids[p]
    &&& forall|p: int, r: int|
        0 <= p < ids.len() && 0 <= r < ids.len() && related(
            logs,
            dets,
            #[trigger] lines[p],
            #[trigger] lines[r],
        ) ==> ids[p] == ids[r]
    &&& forall|p: int, r: int|
        0 <= p < ids.len() && 0 <= r < ids.len() && (#[trigger] ids[p]) == (#[trigger] ids[r])
            ==> linked(logs, dets, class(lines, ids, ids[p]), lines[p], lines[r])
}

fn is_related(logs: &Vec<LogRecord>, dets: &Vec<FinalDet>, i: usize, j: usize) -> (r: bool)
    requires
        i < logs@.len(),
        j < logs@.len(),
        dets@.len() == logs@.len(),
    ensures
        r == related(logs@, dets@, i, j),
{
    let gap = logs[i].timestamp.epoch as i128 - logs[j].timestamp.epoch as i128;
    let apart = if gap < 0 { -gap } else { gap };
    logs[i].user_id == logs[j].user_id && (apart <= CLOSE_SECS as i128 || (apart
        <= INCIDENT_GAP_SECS as i128 && dets[i].dbscan_label == dets[j].dbscan_label))
}

/// The number `c` is that of a line related to line `i`.
spec fn hit(
    logs: Seq<LogRecord>,
    dets: Seq<FinalDet>,
    lines: Seq<usize>,
    ids: Seq<usize>,
    i: usize,
    c: usize,
) -> bool {
    exists|r: int|
        0 <= r < ids.len() && #[trigger] ids[r] == c && related(logs, dets, lines[r], i)
}

/// The numbers after line `i` has joined: the numbers of the lines related to it become `root`,
/// the least of them, or the place of `i` if there are none.
spec fn renumbered(
    logs: Seq<LogRecord>,
    dets: Seq<FinalDet>,
    lines: Seq<usize>,
    ids: Seq<usize>,
    i: usize,
    root: usize,
    next: Seq<usize>,
) -> bool {
    &&& next.len() == ids.len() + 1
    &&& next.last() == root
    &&& root <= ids.len()
    &&& root < ids.len() ==> hit(logs, dets, lines, ids, i, root)
    &&& forall|c: usize| #[trigger] hit(logs, dets, lines, ids, i, c) ==> root <= c
    &&& forall|p: int|
        0 <= p < ids.len() ==> (#[trigger] next[p]) == if hit(logs, dets, lines, ids, i, ids[p]) {
            root
        } else {
            ids[p]
        }
}

proof fn lemma_renumbered(
    logs: Seq<LogRecord>,
    dets: Seq<FinalDet>,
    lines: Seq<usize>,
    ids: Seq<usize>,
    root: usize,
    next: Seq<usize>,
)
    requires
        numbered(logs, dets, lines, ids),
        ids.len() < lines.len() <= usize::MAX,
        renumbered(logs, dets, lines, ids, lines[ids.len() as int], root, next),
    ensures
        numbered(logs, dets, lines, next),
{
    let q = ids.len() as int;
    let i = lines[q];
    let joined = class(lines, next, root);
    assert(next[q] == root);
    assert(joined(i));
    assert forall|p: int| 0 <= p < next.len() implies (#[trigger] next[p]) <= p && next[
    next[p] as int] == next[p] by {
        if p < q {
            assert(ids[p] <= p && ids[ids[p] as int] == ids[p]);
        }
        if root < q {
            let r = choose|r: int|
                0 <= r < ids.len() && #[trigger] ids[r] == root && related(logs, dets, lines[r], i);
            assert(ids[ids[r] as int] == ids[r]);
            assert(hit(logs, dets, lines, ids, i, root));
            assert(next[root as int] == root);
        }
    }
    assert forall|p: int, r: int|
        0 <= p < next.len() && 0 <= r < next.len() && related(
            logs,
            dets,
            #[trigger] lines[p],
            #[trigger] lines[r],
        ) implies next[p] == next[r] by {
        if p < q && r < q {
            assert(ids[p] == ids[r]);
        } else if p < q {
            assert(hit(logs, dets, lines, ids, i, ids[p]));
        } else if r < q {
            assert(related(logs, dets, lines[r], i));
            assert(hit(logs, dets, lines, ids, i, ids[r]));
        }
    }
    // Every line that now has the number `root` is linked with line `i`.
    assert forall|p: int| 0 <= p < next.len() && (#[trigger] next[p]) == root implies linked(
        logs,
        dets,
        joined,
        lines[p],
        i,
    ) && linked(logs, dets, joined, i, lines[p]) by {
        if p == q {
            lemma_linked_self(logs, dets, joined, i);
        } else {
            let c = ids[p];
            assert(hit(logs, dets, lines, ids, i, c)) by {
                assert(c <= p);
            }
            let r = choose|r: int|
                0 <= r < ids.len() && #[trigger] ids[r] == c && related(logs, dets, lines[r], i);
            let old_class = class(lines, ids, c);
            assert forall|x: usize| #[trigger] old_class(x) implies joined(x) by {
                let y = choose|y: int|
                    0 <= y < ids.len() && #[trigger] ids[y] == c && lines[y] == x;
                assert(next[y] == root);
            }
            assert(ids[p] == ids[r] && ids[r] == ids[p]);
            lemma_linked_wider(logs, dets, old_class, joined, lines[p], lines[r]);
            lemma_linked_wider(logs, dets, old_class, joined, lines[r], lines[p]);
            assert(next[r] == root);
            assert(joined(lines[r]));
            assert(related(logs, dets, i, lines[r]));
            lemma_linked_step(logs, dets, joined, lines[r], i);
            lemma_linked_step(logs, dets, joined, i, lines[r]);
            lemma_linked_on(logs, dets, joined, lines[p], lines[r], i);
            lemma_linked_on(logs, dets, joined, i, lines[r], lines[p]);
        }
    }
    assert forall|p: int, r: int|
        0 <= p < next.len() && 0 <= r < next.len() && (#[trigger] next[p]) == (
        #[trigger] next[r]) implies linked(
        logs,
        dets,
        class(lines, next, next[p]),
        lines[p],
        lines[r],
    ) by {
        if next[p] == root {
            lemma_linked_on(logs, dets, joined, lines[p], i, lines[r]);
        } else {
            let c = next[p];
            assert(ids[p] == c && ids[r] == c);
            let old_class = class(lines, ids, c);
            let new_class = class(lines, next, c);
            assert forall|x: usize| #[trigger] old_class(x) implies new_class(x) by {
                let y = choose|y: int|
                    0 <= y < ids.len() && #[trigger] ids[y] == c && lines[y] == x;
                assert(next[y] == c);
            }
            lemma_linked_wider(logs, dets, old_class, new_class, lines[p], lines[r]);
        }
    }
}

/// Numbers lines: those that belong together get the first of their places.
fn number(logs: &Vec<LogRecord>, dets: &Vec<FinalDet>, lines: &Vec<usize>) -> (ids: Vec<usize>)
    requires
        dets@.len() == logs@.len(),
        forall|p: int| 0 <= p < lines@.len() ==> (#[trigger] lines@[p]) < logs@.len(),
    ensures
        ids@.len() == lines@.len(),
        numbered(logs@, dets@, lines@, ids@),
{
    let n = lines.len();
    let mut ids: Vec<usize> = Vec::new();
    for q in 0..n
        invariant
            n == lines@.len(),
            dets@.len() == logs@.len(),
            forall|p: int| 0 <= p < lines@.len() ==> (#[trigger] lines@[p]) < logs@.len(),
            ids@.len() == q,
            numbered(logs@, dets@, lines@, ids@),
    {
        let i = lines[q];
        assert(lines@[q as int] < logs@.len());
        let mut hits: Vec<bool> = Vec::new();
        for c in 0..q
            invariant
                hits@.len() == c,
                forall|d: int| 0 <= d < c ==> !(#[trigger] hits@[d]),
        {
            hits.push(false);
        }
        let mut root: usize = q;
        for r in 0..q
            invariant
                n == lines@.len(),
                q < n,
                i == lines@[q as int],
                i < logs@.len(),
                dets@.len() == logs@.len(),
                forall|p: int| 0 <= p < lines@.len() ==> (#[trigger] lines@[p]) < logs@.len(),
                ids@.len() == q,
                hits@.len() == q,
                numbered(logs@, dets@, lines@, ids@),
                forall|c: usize|
                    c < q ==> (#[trigger] hits@[c as int] <==> hit(
                        logs@,
                        dets@,
                        lines@,
                        ids@.take(r as int),
                        i,
                        c,
                    )),
                root <= q,
                root < q ==> hits@[root as int],
                forall|c: int| 0 <= c < q && #[trigger] hits@[c] ==> root <= c,
        {
            let c = ids[r];
            let ghost before = ids@.take(r as int);
            let ghost after = ids@.take(r + 1);
            let ghost old_hits = hits@;
            assert(ids@[r as int] <= r);
            assert(lines@[r as int] < logs@.len());
            let now = is_related(logs, dets, lines[r], i);
            if now {
                hits.set(c, true);
                if c < root {
                    root = c;
                }
            }
            proof {
                assert(after[r as int] == c);
                assert forall|d: usize| d < q implies (#[trigger] hits@[d as int] <==> hit(
                    logs@,
                    dets@,
                    lines@,
                    after,
                    i,
                    d,
                )) by {
                    if hit(logs@, dets@, lines@, before, i, d) {
                        let x = choose|x: int|
                            0 <= x < before.len() && #[trigger] before[x] == d && related(
                                logs@,
                                dets@,
                                lines@[x],
                                i,
                            );
                        assert(after[x] == d);
                    }
                    if hit(logs@, dets@, lines@, after, i, d) {
                        let x = choose|x: int|
                            0 <= x < after.len() && #[trigger] after[x] == d && related(
                                logs@,
                                dets@,
                                lines@[x],
                                i,
                            );
                        if x < r {
                            assert(before[x] == d);
                        }
                    }
                    assert(old_hits[d as int] <==> hit(logs@, dets@, lines@, before, i, d));
                }
            }
        }
        assert(ids@.take(q as int) =~= ids@);
        let mut next: Vec<usize> = Vec::new();
        for p in 0..q
            invariant
                ids@.len() == q,
                hits@.len() == q,
                numbered(logs@, dets@, lines@, ids@),
                forall|c: usize|
                    c < q ==> (#[trigger] hits@[c as int] <==> hit(
                        logs@,
                        dets@,
                        lines@,
                        ids@,
                        i,
                        c,
                    )),
                next@.len() == p,
                forall|r: int|
                    0 <= r < p ==> (#[trigger] next@[r]) == if hit(
                        logs@,
                        dets@,
                        lines@,
                        ids@,
                        i,
                        ids@[r],
                    ) {
                        root
                    } else {
                        ids@[r]
                    },
        {
            let c = ids[p];
            assert(ids@[p as int] <= p);
            next.push(if hits[c] { root } else { c });
        }
        next.push(root);
        proof {
            assert forall|c: usize| #[trigger] hit(logs@, dets@, lines@, ids@, i, c) implies root
                <= c by {
                let x = choose|x: int|
                    0 <= x < ids@.len() && #[trigger] ids@[x] == c && related(
                        logs@,
                        dets@,
                        lines@[x],
                        i,
                    );
                assert(ids@[x] <= x);
                assert(hits@[c as int]);
            }
            if root < q {
                assert(hits@[root as int]);
            }
            lemma_renumbered(logs@, dets@, lines@, ids@, root, next@);
        }
        ids = next;
    }
    ids
}

/// The lines with the number `root`, among the first `n` places.
spec fn with_number(lines: Seq<usize>, ids: Seq<usize>, root: int, n: int) -> Seq<usize>
    decreases n,
{
    if n <= 0 {
        Seq::empty()
    } else if ids[n - 1] == root {
        with_number(lines, ids, root, n - 1).push(lines[n - 1])
    } else {
        with_number(lines, ids, root, n - 1)
    }
}

proof fn lemma_with_number(lines: Seq<usize>, ids: Seq<usize>, root: usize, n: int)
    requires
        0 <= n <= ids.len(),
        n <= lines.len(),
        forall|p: int, r: int| 0 <= p < r < lines.len() ==> lines[p] < lines[r],
    ensures
        forall|i: usize| #[trigger]
            with_number(lines, ids, root as int, n).contains(i) <==> in_class(
                lines,
                ids.take(n),
                root,
                i,
            ),
        forall|m: int, l: int|
            0 <= m < l < with_number(lines, ids, root as int, n).len()
                ==> #[trigger] with_number(lines, ids, root as int, n)[m] < #[trigger] with_number(
                lines,
                ids,
                root as int,
                n,
            )[l],
        forall|m: int|
            0 <= m < with_number(lines, ids, root as int, n).len() && n < lines.len()
                ==> #[trigger] with_number(lines, ids, root as int, n)[m] < lines[n],
    decreases n,
{
    let all = with_number(lines, ids, root as int, n);
    let now = ids.take(n);
    if n > 0 {
        let less = with_number(lines, ids, root as int, n - 1);
        let before = ids.take(n - 1);
        lemma_with_number(lines, ids, root, n - 1);
        assert forall|i: usize| #[trigger] all.contains(i) <==> in_class(
            lines,
            now,
            root,
            i,
        ) by {
            if in_class(lines, now, root, i) {
                let p = choose|p: int|
                    0 <= p < now.len() && #[trigger] now[p] == root && lines[p] == i;
                if p < n - 1 {
                    assert(before[p] == root);
                    assert(less.contains(i));
                    let m = choose|m: int| 0 <= m < less.len() && less[m] == i;
                    assert(all[m] == i);
                } else {
                    assert(all[less.len() as int] == i);
                }
            }
            if all.contains(i) {
                let m = choose|m: int| 0 <= m < all.len() && all[m] == i;
                if m < less.len() {
                    assert(less[m] == i);
                    assert(less.contains(i));
                    let p = choose|p: int|
                        0 <= p < before.len() && #[trigger] before[p] == root && lines[p] == i;
                    assert(now[p] == root);
                } else {
                    assert(now[n - 1] == root);
                }
            }
        }
        assert forall|m: int| 0 <= m < all.len() && n < lines.len() implies #[trigger] all[m]
            < lines[n] by {
            if m < less.len() {
                assert(all[m] == less[m]);
                assert(less[m] < lines[n - 1]);
            }
        }
        assert forall|m: int, l: int| 0 <= m < l < all.len() implies #[trigger] all[m]
            < #[trigger] all[l] by {
            assert(all[m] == less[m]);
            if l < less.len() {
                assert(all[l] == less[l]);
            } else {
                assert(less[m] < lines[n - 1]);
            }
        }
    } else {
        assert forall|i: usize| !in_class(lines, now, root, i) by {}
    }
}

/// The members of the vectors.
pub open spec fn lists(parts: Seq<Vec<usize>>) -> Seq<Seq<usize>> {
    Seq::new(parts.len(), |k: int| parts[k]@)
}

/// Divides lines into parts that belong together.
pub fn divide(
    logs: &Vec<LogRecord>,
    dets: &Vec<FinalDet>,
    lines: &Vec<usize>,
) -> (r: Vec<Vec<usize>>)
    requires
        dets@.len() == logs@.len(),
        forall|p: int| 0 <= p < lines@.len() ==> (#[trigger] lines@[p]) < logs@.len(),
        forall|p: int, r: int| 0 <= p < r < lines@.len() ==> lines@[p] < lines@[r],
    ensures
        divided(logs@, dets@, lines@, lists(r@)),
{
    let ids = number(logs, dets, lines);
    let n = lines.len();
    let ghost mut roots: Seq<usize> = Seq::empty();
    let mut parts: Vec<Vec<usize>> = Vec::new();
    for root in 0..n
        invariant
            n == lines@.len(),
            ids@.len() == n,
            parts@.len() == roots.len(),
            forall|k: int|
                0 <= k < roots.len() ==> (#[trigger] roots[k]) < root && ids@[roots[k] as int]
                    == roots[k],
            forall|k: int, l: int| 0 <= k < l < roots.len() ==> roots[k] < roots[l],
            forall|p: int| 0 <= p < root && ids@[p] == p ==> roots.contains(#[trigger] ids@[p]),
            forall|k: int|
                0 <= k < roots.len() ==> (#[trigger] parts@[k])@ == with_number(
                    lines@,
                    ids@,
                    roots[k] as int,
                    n as int,
                ),
    {
        if ids[root] == root {
            let mut members: Vec<usize> = Vec::new();
            for p in 0..n
                invariant
                    n == lines@.len(),
                    ids@.len() == n,
                    members@ == with_number(lines@, ids@, root as int, p as int),
            {
                if ids[p] == root {
                    members.push(lines[p]);
                }
            }
            parts.push(members);
            proof {
                let old_roots = roots;
                roots = roots.push(root);
                assert forall|p: int| 0 <= p < root + 1 && ids@[p] == p implies roots.contains(
                    #[trigger] ids@[p],
                ) by {
                    if p < root {
                        assert(old_roots.contains(ids@[p]));
                        let k = choose|k: int| 0 <= k < old_roots.len() && old_roots[k] == ids@[p];
                        assert(roots[k] == ids@[p]);
                    } else {
                        assert(roots[old_roots.len() as int] == root);
                    }
                }
            }
        }
    }
    proof {
        lemma_divided(logs@, dets@, lines@, ids@, roots, lists(parts@));
    }
    parts
}

proof fn lemma_divided(
    logs: Seq<LogRecord>,
    dets: Seq<FinalDet>,
    lines: Seq<usize>,
    ids: Seq<usize>,
    roots: Seq<usize>,
    parts: Seq<Seq<usize>>,
)
    requires
        numbered(logs, dets, lines, ids),
        ids.len() == lines.len(),
        forall|p: int, r: int| 0 <= p < r < lines.len() ==> lines[p] < lines[r],
        parts.len() == roots.len(),
        forall|k: int|
            0 <= k < roots.len() ==> (#[trigger] roots[k]) < ids.len() && ids[roots[k] as int]
                == roots[k],
        forall|k: int, l: int| 0 <= k < l < roots.len() ==> roots[k] < roots[l],
        forall|p: int| 0 <= p < ids.len() && ids[p] == p ==> roots.contains(#[trigger] ids[p]),
        forall|k: int|
            0 <= k < roots.len() ==> (#[trigger] parts[k]) == with_number(
                lines,
                ids,
                roots[k] as int,
                ids.len() as int,
            ),
    ensures
        divided(logs, dets, lines, parts),
{
    let n = ids.len() as int;
    assert(ids.take(n) =~= ids);
    assert forall|k: int| 0 <= k < parts.len() implies {
        &&& forall|i: usize| #[trigger] parts[k].contains(i) <==> in_class(lines, ids, roots[k], i)
        &&& forall|m: int, l: int|
            0 <= m < l < parts[k].len() ==> #[trigger] parts[k][m] < #[trigger] parts[k][l]
        &&& parts[k].len() > 0
        &&& (#[trigger] parts[k])[0] == lines[roots[k] as int]
    } by {
        let c = roots[k];
        lemma_with_number(lines, ids, c, n);
        assert(ids[c as int] == c);
        assert(in_class(lines, ids, c, lines[c as int]));
        assert(parts[k].contains(lines[c as int]));
        let x = choose|x: int| 0 <= x < parts[k].len() && parts[k][x] == lines[c as int];
        assert(parts[k].contains(parts[k][0]));
        let p = choose|p: int|
            0 <= p < ids.len() && #[trigger] ids[p] == c && lines[p] == parts[k][0];
        assert(ids[p] <= p);
    }
    assert forall|k: int, l: int| 0 <= k < l < parts.len() implies (#[trigger] parts[k])[0] < (
    #[trigger] parts[l])[0] by {
        assert(roots[k] < roots[l]);
    }
    assert forall|k: int, i: usize|
        0 <= k < parts.len() && #[trigger] parts[k].contains(i) implies lines.contains(i) by {
        assert(in_class(lines, ids, roots[k], i));
    }
    assert forall|i: usize| #[trigger] lines.contains(i) implies in_some_part(parts, i) by {
        let p = choose|p: int| 0 <= p < lines.len() && lines[p] == i;
        let c = ids[p];
        assert(ids[ids[p] as int] == ids[p]);
        assert(roots.contains(ids[c as int]));
        let k = choose|k: int| 0 <= k < roots.len() && roots[k] == c;
        assert(in_class(lines, ids, c, i));
        assert(parts[k].contains(i));
    }
    assert forall|k: int, l: int, a: usize, b: usize|
        0 <= k < parts.len() && 0 <= l < parts.len() && #[trigger] parts[k].contains(a)
            && #[trigger] parts[l].contains(b) && related(logs, dets, a, b) implies k == l by {
        assert(in_class(lines, ids, roots[k], a) && in_class(lines, ids, roots[l], b));
        let p = choose|p: int| 0 <= p < ids.len() && #[trigger] ids[p] == roots[k] && lines[p] == a;
        let r = choose|r: int| 0 <= r < ids.len() && #[trigger] ids[r] == roots[l] && lines[r] == b;
        assert(related(logs, dets, lines[p], lines[r]));
        assert(ids[p] == ids[r]);
        if k < l {
            assert(roots[k] < roots[l]);
        }
        if l < k {
            assert(roots[l] < roots[k]);
        }
    }
    assert forall|k: int| 0 <= k < parts.len() implies connected(
        logs,
        dets,
        #[trigger] parts[k],
    ) by {
        let c = roots[k];
        let inside = class(lines, ids, c);
        let wider = members_of(parts[k]);
        assert forall|a: usize, b: usize|
            parts[k].contains(a) && parts[k].contains(b) implies #[trigger] linked(
            logs,
            dets,
            wider,
            a,
            b,
        ) by {
            assert(in_class(lines, ids, c, a) && in_class(lines, ids, c, b));
            let p = choose|p: int| 0 <= p < ids.len() && #[trigger] ids[p] == c && lines[p] == a;
            let r = choose|r: int| 0 <= r < ids.len() && #[trigger] ids[r] == c && lines[r] == b;
            assert(ids[p] == ids[r]);
            assert forall|i: usize| #[trigger] inside(i) implies wider(i) by {
                assert(in_class(lines, ids, c, i));
                assert(parts[k].contains(i));
            }
            lemma_linked_wider(logs, dets, inside, wider, a, b);
        }
    }
}

/// Two related lines are in the same part, whatever lines lie between them in the log.
pub proof fn law_related_lines_share_a_part(
    logs: Seq<LogRecord>,
    dets: Seq<FinalDet>,
    lines: Seq<usize>,
    parts: Seq<Seq<usize>>,
    a: usize,
    b: usize,
)
    requires
        divided(logs, dets, lines, parts),
        lines.contains(a),
        lines.contains(b),
        related(logs, dets, a, b),
    ensures
        exists|k: int|
            0 <= k < parts.len() && (#[trigger] parts[k]).contains(a) && parts[k].contains(b),
{
    assert(in_some_part(parts, a) && in_some_part(parts, b));
    let k = choose|k: int| 0 <= k < parts.len() && (#[trigger] parts[k]).contains(a);
    let l = choose|l: int| 0 <= l < parts.len() && (#[trigger] parts[l]).contains(b);
    assert(k == l);
}

/// Of two lines in one part, related lines of that part lead from one to the other.
pub proof fn law_lines_of_a_part_are_linked(
    logs: Seq<LogRecord>,
    dets: Seq<FinalDet>,
    lines: Seq<usize>,
    parts: Seq<Seq<usize>>,
    k: int,
    a: usize,
    b: usize,
)
    requires
        divided(logs, dets, lines, parts),
        0 <= k < parts.len(),
        parts[k].contains(a),
        parts[k].contains(b),
    ensures
        linked(logs, dets, members_of(parts[k]), a, b),
{
    assert(connected(logs, dets, parts[k]));
}

/// Each line has one place in one part.
pub proof fn law_one_part_for_each_line(
    logs: Seq<LogRecord>,
    dets: Seq<FinalDet>,
    lines: Seq<usize>,
    parts: Seq<Seq<usize>>,
    i: usize,
)
    requires
        divided(logs, dets, lines, parts),
        lines.contains(i),
    ensures
        exists|k: int, m: int| held(parts, k, m, i),
        forall|k: int, m: int, l: int, n: int|
            #[trigger] held(parts, k, m, i) && #[trigger] held(parts, l, n, i) ==> k == l && m == n,
{
    assert(in_some_part(parts, i));
    let k = choose|k: int| 0 <= k < parts.len() && (#[trigger] parts[k]).contains(i);
    let m = choose|m: int| 0 <= m < parts[k].len() && parts[k][m] == i;
    assert(held(parts, k, m, i));
    assert forall|k: int, m: int, l: int, n: int|
        #[trigger] held(parts, k, m, i) && #[trigger] held(parts, l, n, i) implies k == l && m
        == n by {
        assert(parts[k].contains(parts[k][m]) && parts[l].contains(parts[l][n]));
        assert(related(logs, dets, i, i));
        if m < n {
            assert(parts[k][m] < parts[k][n]);
        }
        if n < m {
            assert(parts[k][n] < parts[k][m]);
        }
    }
}

/// A line's place in the parts.
pub open spec fn held(parts: Seq<Seq<usize>>, k: int, m: int, line: usize) -> bool {
    0 <= k < parts.len() && 0 <= m < parts[k].len() && parts[k][m] == line
}

proof fn lemma_path_has_one_user(
    logs: Seq<LogRecord>,
    dets: Seq<FinalDet>,
    inside: spec_fn(usize) -> bool,
    steps: Seq<usize>,
    k: int,
)
    requires
        path(logs, dets, inside, steps),
        0 <= k < steps.len(),
    ensures
        logs[steps[k] as int].user_id == logs[steps[0] as int].user_id,
    decreases k,
{
    if k > 0 {
        lemma_path_has_one_user(logs, dets, inside, steps, k - 1);
        assert(related(logs, dets, steps[k - 1], steps[k]));
    }
}

/// The lines of a part are of one user.
pub proof fn law_a_part_has_one_user(
    logs: Seq<LogRecord>,
    dets: Seq<FinalDet>,
    lines: Seq<usize>,
    parts: Seq<Seq<usize>>,
    k: int,
    a: usize,
    b: usize,
)
    requires
        divided(logs, dets, lines, parts),
        0 <= k < parts.len(),
        parts[k].contains(a),
        parts[k].contains(b),
    ensures
        logs[a as int].user_id == logs[b as int].user_id,
{
    law_lines_of_a_part_are_linked(logs, dets, lines, parts, k, a, b);
    let inside = members_of(parts[k]);
    let steps = choose|steps: Seq<usize>| #[trigger]
        path(logs, dets, inside, steps) && steps[0] == a && steps.last() == b;
    lemma_path_has_one_user(logs, dets, inside, steps, steps.len() - 1);
}

/// How many lines some parts hold.
pub open spec fn line_total(parts: Seq<Seq<usize>>) -> nat
    decreases parts.len(),
{
    if parts.len() == 0 {
        0
    } else {
        line_total(parts.drop_last()) + parts.last().len()
    }
}

spec fn all_lines(parts: Seq<Seq<usize>>) -> Set<usize> {
    Set::new(|i: usize| in_some_part(parts, i))
}

proof fn lemma_line_total(parts: Seq<Seq<usize>>)
    requires
        forall|k: int| 0 <= k < parts.len() ==> (#[trigger] parts[k]).no_duplicates(),
        forall|k: int, l: int, i: usize|
            0 <= k < parts.len() && 0 <= l < parts.len() && #[trigger] parts[k].contains(i)
                && #[trigger] parts[l].contains(i) ==> k == l,
    ensures
        all_lines(parts).finite(),
        all_lines(parts).len() == line_total(parts),
    decreases parts.len(),
{
    if parts.len() == 0 {
        assert(all_lines(parts) =~= Set::empty());
    } else {
        let short = parts.drop_last();
        let n = parts.len() - 1;
        let (x, y) = (all_lines(short), parts[n].to_set());
        assert forall|k: int| 0 <= k < short.len() implies (
        #[trigger] short[k]).no_duplicates() by {
            assert(short[k] == parts[k]);
        }
        assert forall|k: int, l: int, i: usize|
            0 <= k < short.len() && 0 <= l < short.len() && #[trigger] short[k].contains(i)
                && #[trigger] short[l].contains(i) implies k == l by {
            assert(parts[k].contains(i) && parts[l].contains(i));
        }
        lemma_line_total(short);
        parts[n].unique_seq_to_set();
        assert(all_lines(parts) =~= x + y) by {
            assert forall|i: usize| all_lines(parts).contains(i) implies (x + y).contains(i) by {
                let k = choose|k: int| 0 <= k < parts.len() && (#[trigger] parts[k]).contains(i);
                if k < n {
                    assert(short[k].contains(i));
                }
            }
            assert forall|i: usize| (x + y).contains(i) implies all_lines(parts).contains(i) by {
                if x.contains(i) {
                    let k = choose|k: int|
                        0 <= k < short.len() && (#[trigger] short[k]).contains(i);
                    assert(parts[k].contains(i));
                } else {
                    assert(parts[n].contains(i));
                }
            }
        }
        assert(x.disjoint(y)) by {
            assert forall|i: usize| !(x.contains(i) && y.contains(i)) by {
                if x.contains(i) && y.contains(i) {
                    let k = choose|k: int|
                        0 <= k < short.len() && (#[trigger] short[k]).contains(i);
                    assert(parts[k].contains(i) && parts[n].contains(i));
                }
            }
        }
        lemma_set_disjoint_lens(x, y);
    }
}

/// The parts hold as many lines as there are.
pub proof fn law_parts_add_up(
    logs: Seq<LogRecord>,
    dets: Seq<FinalDet>,
    lines: Seq<usize>,
    parts: Seq<Seq<usize>>,
)
    requires
        divided(logs, dets, lines, parts),
        lines.no_duplicates(),
    ensures
        line_total(parts) == lines.len(),
{
    assert forall|k: int| 0 <= k < parts.len() implies (#[trigger] parts[k]).no_duplicates() by {
        assert forall|m: int, n: int|
            0 <= m < parts[k].len() && 0 <= n < parts[k].len() && m != n implies parts[k][m]
            != parts[k][n] by {
            if m < n {
                assert(parts[k][m] < parts[k][n]);
            } else {
                assert(parts[k][n] < parts[k][m]);
            }
        }
    }
    assert forall|k: int, l: int, i: usize|
        0 <= k < parts.len() && 0 <= l < parts.len() && #[trigger] parts[k].contains(i)
            && #[trigger] parts[l].contains(i) implies k == l by {
        assert(related(logs, dets, i, i));
    }
    lemma_line_total(parts);
    lines.unique_seq_to_set();
    assert(all_lines(parts) =~= lines.to_set()) by {
        assert forall|i: usize| all_lines(parts).contains(i) implies lines.to_set().contains(i) by {
            let k = choose|k: int| 0 <= k < parts.len() && (#[trigger] parts[k]).contains(i);
            assert(parts[k].contains(i));
        }
        assert forall|i: usize| lines.to_set().contains(i) implies all_lines(parts).contains(i) by {
            assert(lines.contains(i));
        }
    }
}

proof fn lemma_ascending_unique(x: Seq<usize>, y: Seq<usize>)
    requires
        forall|m: int, n: int| 0 <= m < n < x.len() ==> x[m] < x[n],
        forall|m: int, n: int| 0 <= m < n < y.len() ==> y[m] < y[n],
        forall|i: usize| x.contains(i) <==> y.contains(i),
    ensures
        x == y,
    decreases x.len(),
{
    if x.len() == 0 {
        if y.len() > 0 {
            assert(y.contains(y[0]));
        }
        assert(x =~= y);
    } else {
        let (a, b) = (x.len() - 1, y.len() - 1);
        assert(x.contains(x[a]));
        let n = choose|n: int| 0 <= n < y.len() && y[n] == x[a];
        assert(y.contains(y[b]));
        let m = choose|m: int| 0 <= m < x.len() && x[m] == y[b];
        assert(x[a] == y[b]);
        let (x1, y1) = (x.drop_last(), y.drop_last());
        assert forall|i: usize| x1.contains(i) <==> y1.contains(i) by {
            if x1.contains(i) {
                let m = choose|m: int| 0 <= m < x1.len() && x1[m] == i;
                assert(x[m] == i && x[m] < x[a]);
                assert(x.contains(i));
                let n = choose|n: int| 0 <= n < y.len() && y[n] == i;
                assert(y1[n] == i);
            }
            if y1.contains(i) {
                let n = choose|n: int| 0 <= n < y1.len() && y1[n] == i;
                assert(y[n] == i && y[n] < y[b]);
                assert(y.contains(i));
                let m = choose|m: int| 0 <= m < x.len() && x[m] == i;
                assert(x1[m] == i);
            }
        }
        lemma_ascending_unique(x1, y1);
        assert(x =~= x1.push(x[a]) && y =~= y1.push(y[b]));
    }
}

proof fn lemma_path_stays(
    logs: Seq<LogRecord>,
    dets: Seq<FinalDet>,
    lines: Seq<usize>,
    parts: Seq<Seq<usize>>,
    inside: spec_fn(usize) -> bool,
    steps: Seq<usize>,
    k: int,
    n: int,
)
    requires
        divided(logs, dets, lines, parts),
        path(logs, dets, inside, steps),
        forall|i: usize| #[trigger] inside(i) ==> lines.contains(i),
        0 <= k < parts.len(),
        parts[k].contains(steps[0]),
        0 <= n < steps.len(),
    ensures
        parts[k].contains(steps[n]),
    decreases n,
{
    if n > 0 {
        lemma_path_stays(logs, dets, lines, parts, inside, steps, k, n - 1);
        assert(related(logs, dets, steps[n - 1], steps[n]));
        assert(inside(steps[n]));
        assert(in_some_part(parts, steps[n]));
        let l = choose|l: int| 0 <= l < parts.len() && (#[trigger] parts[l]).contains(steps[n]);
        assert(k == l);
    }
}

/// A part of one division lies within a part of the other.
proof fn lemma_part_within(
    logs: Seq<LogRecord>,
    dets: Seq<FinalDet>,
    lines: Seq<usize>,
    parts: Seq<Seq<usize>>,
    others: Seq<Seq<usize>>,
    k: int,
    l: int,
    a: usize,
    b: usize,
)
    requires
        divided(logs, dets, lines, parts),
        divided(logs, dets, lines, others),
        0 <= k < parts.len(),
        0 <= l < others.len(),
        parts[k].contains(a),
        others[l].contains(a),
        parts[k].contains(b),
    ensures
        others[l].contains(b),
{
    law_lines_of_a_part_are_linked(logs, dets, lines, parts, k, a, b);
    let inside = members_of(parts[k]);
    let steps = choose|steps: Seq<usize>| #[trigger]
        path(logs, dets, inside, steps) && steps[0] == a && steps.last() == b;
    assert forall|i: usize| #[trigger] inside(i) implies lines.contains(i) by {
        assert(parts[k].contains(i));
    }
    lemma_path_stays(logs, dets, lines, others, inside, steps, l, steps.len() - 1);
}

/// Each part of one division is a part of the other.
proof fn lemma_part_recurs(
    logs: Seq<LogRecord>,
    dets: Seq<FinalDet>,
    lines: Seq<usize>,
    parts: Seq<Seq<usize>>,
    others: Seq<Seq<usize>>,
    k: int,
)
    requires
        divided(logs, dets, lines, parts),
        divided(logs, dets, lines, others),
        0 <= k < parts.len(),
    ensures
        exists|l: int| 0 <= l < others.len() && #[trigger] others[l] == parts[k],
{
    let a = parts[k][0];
    assert(parts[k].len() > 0);
    assert(parts[k].contains(a));
    assert(lines.contains(a));
    assert(in_some_part(others, a));
    let l = choose|l: int| 0 <= l < others.len() && (#[trigger] others[l]).contains(a);
    assert forall|i: usize| parts[k].contains(i) <==> others[l].contains(i) by {
        if parts[k].contains(i) {
            lemma_part_within(logs, dets, lines, parts, others, k, l, a, i);
        }
        if others[l].contains(i) {
            lemma_part_within(logs, dets, lines, others, parts, l, k, a, i);
        }
    }
    lemma_ascending_unique(parts[k], others[l]);
}

/// There is only one way to divide lines into parts that belong together.
pub proof fn law_division_is_unique(
    logs: Seq<LogRecord>,
    dets: Seq<FinalDet>,
    lines: Seq<usize>,
    parts: Seq<Seq<usize>>,
    others: Seq<Seq<usize>>,
)
    requires
        divided(logs, dets, lines, parts),
        divided(logs, dets, lines, others),
    ensures
        parts == others,
{
    let x = Seq::new(parts.len(), |k: int| parts[k][0]);
    let y = Seq::new(others.len(), |k: int| others[k][0]);
    assert forall|i: usize| x.contains(i) <==> y.contains(i) by {
        if x.contains(i) {
            let k = choose|k: int| 0 <= k < x.len() && x[k] == i;
            lemma_part_recurs(logs, dets, lines, parts, others, k);
            let l = choose|l: int| 0 <= l < others.len() && #[trigger] others[l] == parts[k];
            assert(y[l] == i);
        }
        if y.contains(i) {
            let k = choose|k: int| 0 <= k < y.len() && y[k] == i;
            lemma_part_recurs(logs, dets, lines, others, parts, k);
            let l = choose|l: int| 0 <= l < parts.len() && #[trigger] parts[l] == others[k];
            assert(x[l] == i);
        }
    }
    lemma_ascending_unique(x, y);
    assert forall|k: int| 0 <= k < parts.len() implies parts[k] == others[k] by {
        lemma_part_recurs(logs, dets, lines, parts, others, k);
        let l = choose|l: int| 0 <= l < others.len() && #[trigger] others[l] == parts[k];
        assert(y[l] == x[k] && x[k] == y[k]);
        if l < k {
            assert(y[l] < y[k]);
        }
        if k < l {
            assert(y[k] < y[l]);
        }
    }
    assert(parts =~= others);
}

/// Two lines of one user that are at most 90 seconds apart are in the same part, and so are two
/// of one user and one cluster that are at most 360 seconds apart, whatever else the lines say.
pub proof fn law_near_lines_share_a_part(
    logs: Seq<LogRecord>,
    dets: Seq<FinalDet>,
    lines: Seq<usize>,
    parts: Seq<Seq<usize>>,
    a: usize,
    b: usize,
)
    requires
        divided(logs, dets, lines, parts),
        lines.contains(a),
        lines.contains(b),
        logs[a as int].user_id == logs[b as int].user_id,
        -90 <= logs[a as int].timestamp.epoch - logs[b as int].timestamp.epoch <= 90 || -360
            <= logs[a as int].timestamp.epoch - logs[b as int].timestamp.epoch <= 360
            && dets[a as int].dbscan_label == dets[b as int].dbscan_label,
    ensures
        exists|k: int|
            0 <= k < parts.len() && (#[trigger] parts[k]).contains(a) && parts[k].contains(b),
{
    law_related_lines_share_a_part(logs, dets, lines, parts, a, b);
}

/// A step from one line to the next: of one user, at most 90 seconds apart, or at most 360 and in
/// one cluster.
pub open spec fn one_step(logs: Seq<LogRecord>, dets: Seq<FinalDet>, a: usize, b: usize) -> bool {
    let apart = logs[a as int].timestamp.epoch - logs[b as int].timestamp.epoch;
    &&& logs[a as int].user_id == logs[b as int].user_id
    &&& -90 <= apart <= 90 || -360 <= apart <= 360 && dets[a as int].dbscan_label
        == dets[b as int].dbscan_label
}

/// Lines are in one part for that reason only: from each line of a part such steps lead to each
/// other line, over lines of the part.
pub proof fn law_steps_lead_through_a_part(
    logs: Seq<LogRecord>,
    dets: Seq<FinalDet>,
    lines: Seq<usize>,
    parts: Seq<Seq<usize>>,
    k: int,
    a: usize,
    b: usize,
) -> (steps: Seq<usize>)
    requires
        divided(logs, dets, lines, parts),
        0 <= k < parts.len(),
        parts[k].contains(a),
        parts[k].contains(b),
    ensures
        steps.len() > 0,
        steps[0] == a,
        steps.last() == b,
        forall|q: int| 0 <= q < steps.len() ==> parts[k].contains(#[trigger] steps[q]),
        forall|q: int, r: int|
            0 <= q && r == q + 1 && r < steps.len() ==> one_step(
                logs,
                dets,
                #[trigger] steps[q],
                #[trigger] steps[r],
            ),
{
    law_lines_of_a_part_are_linked(logs, dets, lines, parts, k, a, b);
    let inside = members_of(parts[k]);
    let steps = choose|steps: Seq<usize>| #[trigger]
        path(logs, dets, inside, steps) && steps[0] == a && steps.last() == b;
    assert forall|q: int| 0 <= q < steps.len() implies parts[k].contains(#[trigger] steps[q]) by {
        assert(inside(steps[q]));
    }
    assert forall|q: int, r: int| 0 <= q && r == q + 1 && r < steps.len() implies one_step(
        logs,
        dets,
        #[trigger] steps[q],
        #[trigger] steps[r],
    ) by {
        assert(related(logs, dets, steps[q], steps[r]));
    }
    steps
}

/// Lines of one user in different parts are more than 90 seconds apart, and more than 360 if they
/// are of one cluster. Parts are not empty, hold the lines in ascending order, and stand in the
/// order of their first lines.
pub proof fn law_parts_are_apart(
    logs: Seq<LogRecord>,
    dets: Seq<FinalDet>,
    lines: Seq<usize>,
    parts: Seq<Seq<usize>>,
    k: int,
    l: int,
    m: int,
    n: int,
)
    requires
        divided(logs, dets, lines, parts),
        0 <= k < l < parts.len(),
        0 <= m < parts[k].len(),
        0 <= n < parts[l].len(),
    ensures
        ({
            let (a, b) = (parts[k][m] as int, parts[l][n] as int);
            let apart = logs[a].timestamp.epoch - logs[b].timestamp.epoch;
            &&& logs[a].user_id == logs[b].user_id ==> apart < -90 || apart > 90
            &&& logs[a].user_id == logs[b].user_id && dets[a].dbscan_label == dets[b].dbscan_label
                ==> apart < -360 || apart > 360
        }),
        parts[k][0] < parts[l][0],
        m > 0 ==> parts[k][0] < parts[k][m],
        lines.contains(parts[k][m]),
{
    assert(parts[k].contains(parts[k][m]) && parts[l].contains(parts[l][n]));
    assert(!related(logs, dets, parts[k][m], parts[l][n]));
}

} // verus!
