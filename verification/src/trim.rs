use vstd::prelude::*;

verus! {

/// One piece that trimming keeps of a shape: starting from the whole shape,
/// its start moves to each hit of `mins` in turn, then its end moves to the
/// hit `max`, if there is one.
pub struct TrimSpan {
    pub mins: Vec<usize>,
    pub max: Option<usize>,
}

/// The hits, in order, of the piece still open after the first `n` hits:
/// the entering hits since the last leaving one.
pub open spec fn open_mins(entering: Seq<bool>, n: int) -> Seq<usize>
    decreases n,
{
    if n <= 0 {
        seq![]
    } else if entering[n - 1] {
        open_mins(entering, n - 1).push((n - 1) as usize)
    } else {
        seq![]
    }
}

/// The pieces closed by the first `n` hits: each leaving hit closes the piece
/// opened by the entering hits just before it.
pub open spec fn closed_spans(entering: Seq<bool>, n: int) -> Seq<(Seq<usize>, Option<usize>)>
    decreases n,
{
    if n <= 0 {
        seq![]
    } else if entering[n - 1] {
        closed_spans(entering, n - 1)
    } else {
        closed_spans(entering, n - 1).push((open_mins(entering, n - 1), Some((n - 1) as usize)))
    }
}

/// All pieces kept: the closed ones, and the open one at the end when the
/// last hit enters the shape.
pub open spec fn trim_plan(entering: Seq<bool>) -> Seq<(Seq<usize>, Option<usize>)> {
    let n = entering.len() as int;
    if entering[n - 1] {
        closed_spans(entering, n).push((open_mins(entering, n), None))
    } else {
        closed_spans(entering, n)
    }
}

pub open spec fn span_view(span: TrimSpan) -> (Seq<usize>, Option<usize>) {
    (span.mins@, span.max)
}

/// The pieces that trimming keeps of a shape, given for each of its hits in
/// order of parameter whether the trimming curve enters the shape there.
pub fn trim_spans(entering: &Vec<bool>) -> (spans: Vec<TrimSpan>)
    requires
        entering@.len() > 0,
    ensures
        spans@.len() == trim_plan(entering@).len(),
        forall|i: int| 0 <= i < spans@.len() ==> span_view(#[trigger] spans@[i]) == trim_plan(entering@)[i],
{
    let mut spans: Vec<TrimSpan> = Vec::new();
    let mut mins: Vec<usize> = Vec::new();
    let mut k: usize = 0;
    while k < entering.len()
        invariant
            0 <= k <= entering@.len(),
            mins@ == open_mins(entering@, k as int),
            spans@.len() == closed_spans(entering@, k as int).len(),
            forall|i: int| 0 <= i < spans@.len() ==> span_view(#[trigger] spans@[i]) == closed_spans(entering@, k as int)[i],
        decreases entering@.len() - k,
    {
        if entering[k] {
            mins.push(k);
        } else {
            let span = TrimSpan { mins, max: Some(k) };
            spans.push(span);
            mins = Vec::new();
            proof {
                assert forall|i: int| 0 <= i < spans@.len() implies span_view(#[trigger] spans@[i]) == closed_spans(entering@, k + 1)[i] by {
                }
            }
        }
        k = k + 1;
    }
    if entering[entering.len() - 1] {
        spans.push(TrimSpan { mins, max: None });
        proof {
            assert forall|i: int| 0 <= i < spans@.len() implies span_view(#[trigger] spans@[i]) == trim_plan(entering@)[i] by {
            }
        }
    }
    spans
}

/// The hits a piece uses: those that move its start, then the one that
/// moves its end.
pub open spec fn span_hits(span: (Seq<usize>, Option<usize>)) -> Seq<usize> {
    match span.1 {
        Some(m) => span.0.push(m),
        None => span.0,
    }
}

/// The hits the pieces use, piece after piece.
pub open spec fn plan_hits(plan: Seq<(Seq<usize>, Option<usize>)>) -> Seq<usize>
    decreases plan.len(),
{
    if plan.len() == 0 {
        seq![]
    } else {
        plan_hits(plan.drop_last()) + span_hits(plan.last())
    }
}

/// The hit numbers `0 .. n` in order.
pub open spec fn hit_range(n: int) -> Seq<usize> {
    Seq::new(n as nat, |i: int| i as usize)
}

proof fn lemma_prefix_hits(entering: Seq<bool>, k: int)
    requires
        0 <= k <= entering.len(),
        entering.len() <= usize::MAX + 1,
    ensures
        plan_hits(closed_spans(entering, k)) + open_mins(entering, k) == hit_range(k),
    decreases k,
{
    if k > 0 {
        lemma_prefix_hits(entering, k - 1);
        let closed = closed_spans(entering, k - 1);
        let open = open_mins(entering, k - 1);
        if entering[k - 1] {
            assert(plan_hits(closed) + open.push((k - 1) as usize) =~= (plan_hits(closed) + open).push((k - 1) as usize));
            assert(hit_range(k - 1).push((k - 1) as usize) =~= hit_range(k));
        } else {
            let span = (open, Some((k - 1) as usize));
            assert(closed.push(span).drop_last() =~= closed);
            assert(plan_hits(closed.push(span)) == plan_hits(closed) + span_hits(span));
            assert(plan_hits(closed) + open.push((k - 1) as usize) =~= (plan_hits(closed) + open).push((k - 1) as usize));
            assert(hit_range(k - 1).push((k - 1) as usize) =~= hit_range(k));
            assert(plan_hits(closed.push(span)) + seq![] =~= plan_hits(closed.push(span)));
        }
    } else {
        assert(hit_range(0) =~= seq![]);
    }
}

/// Trimming uses every hit exactly once and in order: the hits of the kept
/// pieces, piece after piece, are all the hits.
pub proof fn lemma_trim_uses_every_hit(entering: Seq<bool>)
    requires
        entering.len() > 0,
        entering.len() <= usize::MAX + 1,
    ensures
        plan_hits(trim_plan(entering)) == hit_range(entering.len() as int),
{
    let n = entering.len() as int;
    lemma_prefix_hits(entering, n);
    let closed = closed_spans(entering, n);
    let open = open_mins(entering, n);
    if entering[n - 1] {
        let span = (open, None::<usize>);
        assert(closed.push(span).drop_last() =~= closed);
        assert(plan_hits(closed.push(span)) == plan_hits(closed) + span_hits(span));
    } else {
        assert(open =~= seq![]);
        assert(plan_hits(closed) + open =~= plan_hits(closed));
    }
}

proof fn lemma_prefix_directions(entering: Seq<bool>, k: int)
    requires
        0 <= k <= entering.len(),
        entering.len() <= usize::MAX + 1,
    ensures
        forall|t: int| 0 <= t < open_mins(entering, k).len()
            ==> #[trigger] open_mins(entering, k)[t] < k && entering[open_mins(entering, k)[t] as int],
        forall|s: int, t: int| 0 <= s < closed_spans(entering, k).len() && 0 <= t < closed_spans(entering, k)[s].0.len()
            ==> #[trigger] closed_spans(entering, k)[s].0[t] < k && entering[closed_spans(entering, k)[s].0[t] as int],
        forall|s: int| 0 <= s < closed_spans(entering, k).len()
            ==> (#[trigger] closed_spans(entering, k)[s]).1 is Some
                && closed_spans(entering, k)[s].1->0 < k && !entering[closed_spans(entering, k)[s].1->0 as int],
    decreases k,
{
    if k > 0 {
        lemma_prefix_directions(entering, k - 1);
        let open = open_mins(entering, k - 1);
        let closed = closed_spans(entering, k - 1);
        if !entering[k - 1] {
            let span = (open, Some((k - 1) as usize));
            assert forall|s: int, t: int| 0 <= s < closed.push(span).len() && 0 <= t < closed.push(span)[s].0.len()
                implies #[trigger] closed.push(span)[s].0[t] < k && entering[closed.push(span)[s].0[t] as int] by {
                if s < closed.len() {
                    assert(closed.push(span)[s] == closed[s]);
                }
            }
            assert forall|s: int| 0 <= s < closed.push(span).len()
                implies (#[trigger] closed.push(span)[s]).1 is Some
                    && closed.push(span)[s].1->0 < k && !entering[closed.push(span)[s].1->0 as int] by {
                if s < closed.len() {
                    assert(closed.push(span)[s] == closed[s]);
                }
            }
        }
    }
}

/// Trimming moves a piece's start only at hits where the trimming curve
/// enters the shape and its end only at hits where it leaves; only the last
/// piece may run to the shape's end, and then it starts at an entering hit.
pub proof fn lemma_trim_follows_directions(entering: Seq<bool>)
    requires
        entering.len() > 0,
        entering.len() <= usize::MAX + 1,
    ensures
        forall|s: int, t: int| 0 <= s < trim_plan(entering).len() && 0 <= t < trim_plan(entering)[s].0.len()
            ==> #[trigger] trim_plan(entering)[s].0[t] < entering.len()
                && entering[trim_plan(entering)[s].0[t] as int],
        forall|s: int| 0 <= s < trim_plan(entering).len() && (#[trigger] trim_plan(entering)[s]).1 is Some
            ==> trim_plan(entering)[s].1->0 < entering.len() && !entering[trim_plan(entering)[s].1->0 as int],
        forall|s: int| 0 <= s < trim_plan(entering).len() && (#[trigger] trim_plan(entering)[s]).1 is None
            ==> s == trim_plan(entering).len() - 1 && trim_plan(entering)[s].0.len() > 0
                && entering[entering.len() - 1],
{
    let n = entering.len() as int;
    lemma_prefix_directions(entering, n);
    let closed = closed_spans(entering, n);
    let open = open_mins(entering, n);
    if entering[n - 1] {
        let span = (open, None::<usize>);
        assert(open.len() > 0);
        assert forall|s: int, t: int| 0 <= s < closed.push(span).len() && 0 <= t < closed.push(span)[s].0.len()
            implies #[trigger] closed.push(span)[s].0[t] < n && entering[closed.push(span)[s].0[t] as int] by {
            if s < closed.len() {
                assert(closed.push(span)[s] == closed[s]);
            }
        }
        assert forall|s: int| 0 <= s < closed.push(span).len() && (#[trigger] closed.push(span)[s]).1 is Some
            implies closed.push(span)[s].1->0 < n && !entering[closed.push(span)[s].1->0 as int] by {
            if s < closed.len() {
                assert(closed.push(span)[s] == closed[s]);
            }
        }
        assert forall|s: int| 0 <= s < closed.push(span).len() && (#[trigger] closed.push(span)[s]).1 is None
            implies s == closed.push(span).len() - 1 && closed.push(span)[s].0.len() > 0 by {
            if s < closed.len() {
                assert(closed.push(span)[s] == closed[s]);
            }
        }
    }
}

} // verus!
