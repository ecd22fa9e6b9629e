//! Cancellation tokens.
//!
//! A [`CancellationToken`] is a handle on one node of a [`TokenForest`]. Tokens
//! made with `child_token` hang below their parent, and cancelling a token
//! cancels everything below it. The forest never wakes a task by itself: the
//! operations hand out the wakers that are due, and the owner of the forest
//! fires them.
use vstd::prelude::*;

use crate::poll::Poll;

verus! {

/// A waker together with the number under which it was registered.
pub struct OrdWaker<W> {
    /// What has to be fired.
    pub waker: W,
    /// Registration number, unique within one token.
    pub token: usize,
}

/// What a token's state amounts to.
#[verifier::ext_equal]
pub ghost struct StateView<W> {
    /// Tokens hanging directly below, in order of creation.
    pub children: Seq<usize>,
    /// Whether the token is cancelled.
    pub is_cancelled: bool,
    /// The next registration number.
    pub next_generation: nat,
    /// Tasks waiting for the cancellation, in order of registration.
    pub waiters: Seq<OrdWaker<W>>,
}

/// The waiters that are not registered under the given number.
pub open spec fn others<W>(waiters: Seq<OrdWaker<W>>, token: usize) -> Seq<OrdWaker<W>> {
    waiters.filter(|w: OrdWaker<W>| w.token != token)
}

impl<W> StateView<W> {
    /// A token that nobody has touched yet.
    pub open spec fn fresh(is_cancelled: bool) -> Self {
        StateView {
            children: Seq::empty(),
            is_cancelled,
            next_generation: 0,
            waiters: Seq::empty(),
        }
    }

    /// The state once the stale registration has been deleted, if there is one.
    pub open spec fn cleaned(self, stale: Option<usize>) -> Self {
        match stale {
            Some(token) => StateView { waiters: others(self.waiters, token), ..self },
            None => self,
        }
    }

    /// The state after the token's own cancellation.
    pub open spec fn cancelled(self) -> Self {
        StateView { is_cancelled: true, waiters: Seq::empty(), ..self }
    }

    /// The wakers of all waiting tasks, in order of registration.
    pub open spec fn wakers(self) -> Seq<W> {
        self.waiters.map_values(|w: OrdWaker<W>| w.waker)
    }
}

/// Cancellation token's state.
pub struct State<W> {
    /// Tokens created using `child_token` function.
    /// When this token is cancelled, those must be cancelled too.
    children: Vec<usize>,
    /// Whether this token is cancelled.
    is_cancelled: bool,
    /// Used for numbering the registrations.
    next_generation: usize,
    /// Tasks that are waiting for this token to be cancelled.
    waiters: Vec<OrdWaker<W>>,
}

impl<W> View for State<W> {
    type V = StateView<W>;

    closed spec fn view(&self) -> StateView<W> {
        StateView {
            children: self.children@,
            is_cancelled: self.is_cancelled,
            next_generation: self.next_generation as nat,
            waiters: self.waiters@,
        }
    }
}

impl<W> State<W> {
    /// State of a token that is not cancelled and that nobody waits for.
    pub fn new() -> (state: State<W>)
        ensures
            state@ == StateView::<W>::fresh(false),
    {
        State {
            children: Vec::new(),
            is_cancelled: false,
            next_generation: 0,
            waiters: Vec::new(),
        }
    }

    /// Cleanups stale waiter, if needed: deletes the registration that nobody is
    /// interested in any more, to prevent excessive wakeups.
    pub fn maybe_cleanup(&mut self, stale: Option<usize>)
        ensures
            final(self)@ == old(self)@.cleaned(stale),
    {
        let token: usize = match stale {
            Some(token) => token,
            None => {
                return;
            },
        };
        let mut waiters: Vec<OrdWaker<W>> = Vec::new();
        std::mem::swap(&mut waiters, &mut self.waiters);
        let ghost all = waiters@;
        let ghost keep = |w: OrdWaker<W>| w.token != token;
        let mut kept: Vec<OrdWaker<W>> = Vec::new();
        for waiter in it: waiters
            invariant
                it.seq() == all,
                keep == (|w: OrdWaker<W>| w.token != token),
                kept@ == all.take(it.index()).filter(keep),
        {
            proof {
                reveal(Seq::filter);
                assert(all.take(it.index() + 1).drop_last() == all.take(it.index()));
            }
            if waiter.token != token {
                kept.push(waiter);
            }
        }
        assert(all.take(all.len() as int) == all);
        self.waiters = kept;
    }
}

/// For each token, the tokens directly below it.
pub open spec fn shape<W>(nodes: Seq<StateView<W>>) -> Seq<Seq<usize>> {
    nodes.map_values(|s: StateView<W>| s.children)
}

/// Whether `d` hangs directly below `p`.
pub open spec fn is_child(shape: Seq<Seq<usize>>, p: int, d: int) -> bool {
    exists|i: int| 0 <= i < shape[p].len() && #[trigger] shape[p][i] == d
}

/// Whether `d` is `a`, or hangs somewhere below `a`.
pub open spec fn below(shape: Seq<Seq<usize>>, a: int, d: int) -> bool
    decreases d,
{
    ||| a == d
    ||| exists|p: int| 0 <= p < d && p < shape.len() && #[trigger] is_child(shape, p, d) && below(shape, a, p)
}

/// Every token is older than those below it and hangs below at most one token.
pub open spec fn is_forest(shape: Seq<Seq<usize>>) -> bool {
    &&& forall|p: int, i: int|
        0 <= p < shape.len() && 0 <= i < shape[p].len() ==> p < #[trigger] shape[p][i]
            < shape.len()
    &&& forall|p: int, i: int, q: int, j: int|
        0 <= p < shape.len() && 0 <= i < shape[p].len() && 0 <= q < shape.len() && 0 <= j
            < shape[q].len() && #[trigger] shape[p][i] == #[trigger] shape[q][j] ==> p == q && i
            == j
}

/// `a` and everything below it, each token before those below it and siblings
/// in order of creation.
pub open spec fn preorder(shape: Seq<Seq<usize>>, a: int) -> Seq<int>
    decreases shape.len() - a, shape[a].len() + 1,
{
    seq![a] + preorders(shape, a, shape[a].len())
}

/// The part of `preorder(shape, a)` that comes from the first `n` children.
pub open spec fn preorders(shape: Seq<Seq<usize>>, a: int, n: nat) -> Seq<int>
    decreases shape.len() - a, n,
{
    if n == 0 {
        Seq::empty()
    } else {
        let c = shape[a][n - 1] as int;
        preorders(shape, a, (n - 1) as nat) + if a < c < shape.len() {
            preorder(shape, c)
        } else {
            Seq::empty()
        }
    }
}

/// The wakers of those of the given tokens that are not cancelled.
pub open spec fn pending<W>(nodes: Seq<StateView<W>>, order: Seq<int>) -> Seq<W>
    decreases order.len(),
{
    if order.len() == 0 {
        Seq::empty()
    } else {
        pending(nodes, order.drop_last()) + if nodes[order.last()].is_cancelled {
            Seq::empty()
        } else {
            nodes[order.last()].wakers()
        }
    }
}

/// The forest once `a` and everything below it is cancelled.
pub open spec fn after_cancel<W>(nodes: Seq<StateView<W>>, a: int) -> Seq<StateView<W>> {
    Seq::new(
        nodes.len(),
        |j: int|
            if below(shape(nodes), a, j) && !nodes[j].is_cancelled {
                nodes[j].cancelled()
            } else {
                nodes[j]
            },
    )
}

/// Whatever hangs below a cancelled token, itself below `a`, is cancelled.
pub open spec fn closed_below<W>(nodes: Seq<StateView<W>>, a: int) -> bool {
    forall|p: int, i: int|
        0 <= p < nodes.len() && below(shape(nodes), a, p) && nodes[p].is_cancelled && 0 <= i
            < nodes[p].children.len() ==> nodes[(#[trigger] nodes[p].children[i]) as int].is_cancelled
}

proof fn lemma_below_older(shape: Seq<Seq<usize>>, a: int, d: int)
    requires
        is_forest(shape),
        below(shape, a, d),
    ensures
        a <= d,
    decreases d,
{
    if a != d {
        let p = choose|p: int| 0 <= p < d && p < shape.len() && #[trigger] is_child(shape, p, d) && below(shape, a, p);
        lemma_below_older(shape, a, p);
    }
}

proof fn lemma_below_trans(shape: Seq<Seq<usize>>, a: int, b: int, d: int)
    requires
        below(shape, a, b),
        below(shape, b, d),
    ensures
        below(shape, a, d),
    decreases d,
{
    if b != d {
        let p = choose|p: int| 0 <= p < d && p < shape.len() && #[trigger] is_child(shape, p, d) && below(shape, b, p);
        lemma_below_trans(shape, a, b, p);
    }
}

proof fn lemma_below_chain(shape: Seq<Seq<usize>>, a: int, b: int, d: int)
    requires
        is_forest(shape),
        below(shape, a, d),
        below(shape, b, d),
        a <= b,
    ensures
        below(shape, a, b),
    decreases d,
{
    if b != d {
        if a == d {
            lemma_below_older(shape, b, d);
        } else {
            let p = choose|p: int| 0 <= p < d && p < shape.len() && #[trigger] is_child(shape, p, d) && below(shape, a, p);
            let q = choose|q: int| 0 <= q < d && q < shape.len() && #[trigger] is_child(shape, q, d) && below(shape, b, q);
            assert(p == q);
            lemma_below_chain(shape, a, b, p);
        }
    }
}

proof fn lemma_child_below(shape: Seq<Seq<usize>>, a: int, i: int)
    requires
        is_forest(shape),
        0 <= a < shape.len(),
        0 <= i < shape[a].len(),
    ensures
        below(shape, a, shape[a][i] as int),
        a < shape[a][i],
{
    assert(is_child(shape, a, shape[a][i] as int));
    assert(below(shape, a, a));
}

/// Everything below `a` other than `a` itself is below one of its children.
proof fn lemma_below_first_step(shape: Seq<Seq<usize>>, a: int, d: int) -> (i: int)
    requires
        is_forest(shape),
        0 <= a,
        a != d,
        below(shape, a, d),
    ensures
        0 <= a < shape.len(),
        0 <= i < shape[a].len(),
        below(shape, shape[a][i] as int, d),
    decreases d,
{
    let p = choose|p: int| 0 <= p < d && p < shape.len() && #[trigger] is_child(shape, p, d) && below(shape, a, p);
    if p == a {
        let i = choose|i: int| 0 <= i < shape[p].len() && #[trigger] shape[p][i] == d;
        i
    } else {
        lemma_below_first_step(shape, a, p)
    }
}

/// The parts of the forest below two children of one token have nothing in common.
proof fn lemma_siblings_disjoint(shape: Seq<Seq<usize>>, a: int, i: int, j: int, d: int)
    requires
        is_forest(shape),
        0 <= a < shape.len(),
        0 <= i < shape[a].len(),
        0 <= j < shape[a].len(),
        below(shape, shape[a][i] as int, d),
        below(shape, shape[a][j] as int, d),
    ensures
        i == j,
{
    let x = shape[a][i] as int;
    let y = shape[a][j] as int;
    if x > y {
        lemma_siblings_disjoint_ordered(shape, a, j, i, d);
    } else {
        lemma_siblings_disjoint_ordered(shape, a, i, j, d);
    }
}

proof fn lemma_siblings_disjoint_ordered(shape: Seq<Seq<usize>>, a: int, i: int, j: int, d: int)
    requires
        is_forest(shape),
        0 <= a < shape.len(),
        0 <= i < shape[a].len(),
        0 <= j < shape[a].len(),
        shape[a][i] <= shape[a][j],
        below(shape, shape[a][i] as int, d),
        below(shape, shape[a][j] as int, d),
    ensures
        i == j,
{
    let x = shape[a][i] as int;
    let y = shape[a][j] as int;
    lemma_below_chain(shape, x, y, d);
    if x != y {
        let p = choose|p: int| 0 <= p < y && p < shape.len() && #[trigger] is_child(shape, p, y) && below(shape, x, p);
        assert(p == a);
        lemma_below_older(shape, x, a);
    }
}

proof fn lemma_preorder_below(shape: Seq<Seq<usize>>, a: int)
    requires
        is_forest(shape),
        0 <= a < shape.len(),
    ensures
        forall|k: int|
            0 <= k < preorder(shape, a).len() ==> below(
                shape,
                a,
                #[trigger] preorder(shape, a)[k],
            ) && 0 <= preorder(shape, a)[k] < shape.len(),
    decreases shape.len() - a, shape[a].len() + 1,
{
    lemma_preorders_below(shape, a, shape[a].len());
    let rest = preorders(shape, a, shape[a].len());
    assert forall|k: int| 0 <= k < preorder(shape, a).len() implies below(
        shape,
        a,
        #[trigger] preorder(shape, a)[k],
    ) && 0 <= preorder(shape, a)[k] < shape.len() by {
        if k > 0 {
            assert(preorder(shape, a)[k] == rest[k - 1]);
        }
    }
}

proof fn lemma_preorders_below(shape: Seq<Seq<usize>>, a: int, n: nat)
    requires
        is_forest(shape),
        0 <= a < shape.len(),
        n <= shape[a].len(),
    ensures
        forall|k: int|
            0 <= k < preorders(shape, a, n).len() ==> below(
                shape,
                a,
                #[trigger] preorders(shape, a, n)[k],
            ) && 0 <= preorders(shape, a, n)[k] < shape.len(),
    decreases shape.len() - a, n,
{
    if n > 0 {
        let c = shape[a][n - 1] as int;
        lemma_preorders_below(shape, a, (n - 1) as nat);
        lemma_child_below(shape, a, n - 1);
        lemma_preorder_below(shape, c);
        let earlier = preorders(shape, a, (n - 1) as nat);
        assert forall|k: int| 0 <= k < preorders(shape, a, n).len() implies below(
            shape,
            a,
            #[trigger] preorders(shape, a, n)[k],
        ) && 0 <= preorders(shape, a, n)[k] < shape.len() by {
            if k < earlier.len() {
                assert(preorders(shape, a, n)[k] == earlier[k]);
            } else {
                assert(preorders(shape, a, n)[k] == preorder(shape, c)[k - earlier.len()]);
                lemma_below_trans(shape, a, c, preorders(shape, a, n)[k]);
            }
        }
    }
}

proof fn lemma_pending_concat<W>(nodes: Seq<StateView<W>>, first: Seq<int>, second: Seq<int>)
    ensures
        pending(nodes, first + second) == pending(nodes, first) + pending(nodes, second),
    decreases second.len(),
{
    if second.len() == 0 {
        assert(first + second == first);
    } else {
        assert((first + second).drop_last() == first + second.drop_last());
        lemma_pending_concat(nodes, first, second.drop_last());
    }
}

proof fn lemma_pending_same<W>(a: Seq<StateView<W>>, b: Seq<StateView<W>>, order: Seq<int>)
    requires
        forall|k: int| 0 <= k < order.len() ==> a[#[trigger] order[k]] == b[order[k]],
    ensures
        pending(a, order) == pending(b, order),
    decreases order.len(),
{
    if order.len() > 0 {
        assert forall|k: int| 0 <= k < order.drop_last().len() implies a[#[trigger] order.drop_last()[k]]
            == b[order.drop_last()[k]] by {
            assert(order[k] == order.drop_last()[k]);
        }
        lemma_pending_same(a, b, order.drop_last());
        assert(order[order.len() - 1] == order.last());
    }
}

proof fn lemma_pending_none<W>(nodes: Seq<StateView<W>>, order: Seq<int>)
    requires
        forall|k: int| 0 <= k < order.len() ==> nodes[#[trigger] order[k]].is_cancelled,
    ensures
        pending(nodes, order) == Seq::<W>::empty(),
    decreases order.len(),
{
    if order.len() > 0 {
        assert forall|k: int| 0 <= k < order.drop_last().len() implies nodes[#[trigger] order.drop_last()[k]].is_cancelled by {
            assert(order[k] == order.drop_last()[k]);
        }
        lemma_pending_none(nodes, order.drop_last());
        assert(order[order.len() - 1] == order.last());
    }
}

proof fn lemma_cancelled_below<W>(nodes: Seq<StateView<W>>, a: int, d: int)
    requires
        is_forest(shape(nodes)),
        closed_below(nodes, a),
        0 <= a < nodes.len(),
        nodes[a].is_cancelled,
        below(shape(nodes), a, d),
    ensures
        nodes[d].is_cancelled,
    decreases d,
{
    if a != d {
        let s = shape(nodes);
        let p = choose|p: int| 0 <= p < d && p < s.len() && #[trigger] is_child(s, p, d) && below(s, a, p);
        lemma_cancelled_below(nodes, a, p);
        let i = choose|i: int| 0 <= i < s[p].len() && #[trigger] s[p][i] == d;
        assert(nodes[p].children[i] == d);
    }
}

/// `now` is `before` with `a` and everything below its first `n` children cancelled.
spec fn part_cancelled<W>(
    before: Seq<StateView<W>>,
    now: Seq<StateView<W>>,
    a: int,
    n: int,
) -> bool {
    let kids = shape(before);
    &&& now.len() == before.len()
    &&& forall|j: int|
        0 <= j < before.len() ==> #[trigger] now[j] == if (a == j || exists|i: int|
            0 <= i < n && below(kids, #[trigger] kids[a][i] as int, j)) && !before[j].is_cancelled {
            before[j].cancelled()
        } else {
            before[j]
        }
}

/// What hangs below the next child has not been touched yet.
proof fn lemma_part_untouched<W>(
    before: Seq<StateView<W>>,
    now: Seq<StateView<W>>,
    a: int,
    n: int,
)
    requires
        is_forest(shape(before)),
        part_cancelled(before, now, a, n),
        0 <= a < before.len(),
        0 <= n < before[a].children.len(),
    ensures
        forall|d: int|
            0 <= d < before.len() && below(shape(before), before[a].children[n] as int, d)
                ==> #[trigger] now[d] == before[d],
{
    let kids = shape(before);
    assert forall|d: int|
        0 <= d < before.len() && below(kids, before[a].children[n] as int, d) implies #[trigger] now[d]
        == before[d] by {
        assert(kids[a][n] == before[a].children[n]);
        lemma_below_older(kids, kids[a][n] as int, d);
        assert forall|i: int| 0 <= i < n && below(kids, #[trigger] kids[a][i] as int, d) implies false by {
            lemma_siblings_disjoint(kids, a, i, n, d);
        }
    }
}

/// All tokens that may be related to each other.
pub struct TokenForest<W> {
    nodes: Vec<State<W>>,
}

impl<W> View for TokenForest<W> {
    type V = Seq<StateView<W>>;

    closed spec fn view(&self) -> Seq<StateView<W>> {
        self.nodes@.map_values(|s: State<W>| s@)
    }
}

/// What holds of the tokens of every forest.
pub open spec fn valid_forest<W>(nodes: Seq<StateView<W>>) -> bool {
    &&& is_forest(shape(nodes))
    &&& forall|p: int, i: int|
        0 <= p < nodes.len() && nodes[p].is_cancelled && 0 <= i < nodes[p].children.len()
            ==> nodes[(#[trigger] nodes[p].children[i]) as int].is_cancelled
}

impl<W> TokenForest<W> {
    /// A forest without tokens.
    pub fn new() -> (forest: Self)
        ensures
            forest@ == Seq::<StateView<W>>::empty(),
            valid_forest(forest@),
    {
        let forest = TokenForest { nodes: Vec::new() };
        assert(forest@ =~= Seq::<StateView<W>>::empty());
        forest
    }

    /// Cancels the token with the given number and whatever hangs below it,
    /// and appends the wakers that are due to `woken`.
    fn cancel_node(&mut self, id: usize, woken: &mut Vec<W>)
        requires
            is_forest(shape(old(self)@)),
            closed_below(old(self)@, id as int),
            id < old(self)@.len(),
        ensures
            final(self)@ == after_cancel(old(self)@, id as int),
            final(woken)@ == old(woken)@ + pending(
                old(self)@,
                preorder(shape(old(self)@), id as int),
            ),
        decreases old(self)@.len() - id,
    {
        let ghost before = self@;
        let ghost kids = shape(before);
        let ghost a = id as int;
        if self.nodes[id].is_cancelled {
            proof {
                lemma_preorder_below(kids, a);
                assert forall|d: int| below(kids, a, d) implies before[d].is_cancelled by {
                    lemma_cancelled_below(before, a, d);
                }
                lemma_pending_none(before, preorder(kids, a));
                assert(self@ =~= after_cancel(before, a));
            }
            return;
        }
        let mut waiters: Vec<OrdWaker<W>> = Vec::new();
        std::mem::swap(&mut waiters, &mut self.nodes[id].waiters);
        self.nodes[id].is_cancelled = true;
        for waiter in it: waiters
            invariant
                it.seq() == before[a].waiters,
                woken@ == old(woken)@ + before[a].wakers().take(it.index()),
        {
            woken.push(waiter.waker);
        }
        assert(before[a].wakers().take(before[a].waiters.len() as int) == before[a].wakers());
        assert(self@ =~= before.update(a, before[a].cancelled()));
        assert(shape(self@) =~= kids);
        proof {
            assert(seq![a].drop_last() =~= Seq::<int>::empty());
            reveal_with_fuel(pending, 2);
            assert(seq![a] + preorders(kids, a, 0) =~= seq![a]);
        }
        let count: usize = self.nodes[id].children.len();
        for k in 0..count
            invariant
                before == old(self)@,
                is_forest(kids),
                kids == shape(before),
                closed_below(before, a),
                id < before.len(),
                a == id as int,
                count == kids[a].len(),
                !before[a].is_cancelled,
                part_cancelled(before, self@, a, k as int),
                woken@ == old(woken)@ + pending(before, seq![a] + preorders(kids, a, k as nat)),
        {
            assert(self@[a].children == kids[a]);
            let child: usize = self.nodes[id].children[k];
            let ghost c = child as int;
            let ghost now = self@;
            proof {
                assert(shape(now) =~= kids);
                lemma_child_below(kids, a, k as int);
                lemma_part_untouched(before, now, a, k as int);
                assert forall|p: int, i: int|
                    0 <= p < now.len() && below(kids, c, p) && now[p].is_cancelled && 0 <= i
                        < now[p].children.len() implies now[(#[trigger] now[p].children[i]) as int].is_cancelled by {
                    assert(kids[p][i] == before[p].children[i]);
                    lemma_child_below(kids, p, i);
                    lemma_below_trans(kids, a, c, p);
                    lemma_below_trans(kids, c, p, kids[p][i] as int);
                }
                lemma_preorder_below(kids, c);
                lemma_pending_same(before, now, preorder(kids, c));
                lemma_pending_concat(
                    before,
                    seq![a] + preorders(kids, a, k as nat),
                    preorder(kids, c),
                );
                assert(seq![a] + preorders(kids, a, (k + 1) as nat) =~= (seq![a] + preorders(
                    kids,
                    a,
                    k as nat,
                )) + preorder(kids, c));
            }
            self.cancel_node(child, woken);
            assert(part_cancelled(before, self@, a, k + 1));
        }
        proof {
            assert forall|j: int| 0 <= j < before.len() implies self@[j] == after_cancel(
                before,
                a,
            )[j] by {
                if below(kids, a, j) && a != j {
                    let i = lemma_below_first_step(kids, a, j);
                }
                assert forall|i: int|
                    0 <= i < kids[a].len() && below(kids, kids[a][i] as int, j) implies below(
                    kids,
                    a,
                    j,
                ) by {
                    lemma_child_below(kids, a, i);
                    lemma_below_trans(kids, a, kids[a][i] as int, j);
                }
            }
            assert(self@ =~= after_cancel(before, a));
        }
    }
}

/// Handle on one token of a forest.
#[derive(Copy, Clone, Debug)]
pub struct CancellationToken {
    id: usize,
}

impl View for CancellationToken {
    type V = int;

    /// The token's place in its forest.
    closed spec fn view(&self) -> int {
        self.id as int
    }
}

impl CancellationToken {
    /// Creates new uncancelled token.
    pub fn new<W>(forest: &mut TokenForest<W>) -> (token: CancellationToken)
        requires
            valid_forest(old(forest)@),
        ensures
            token@ == old(forest)@.len() <= usize::MAX,
            final(forest)@ == old(forest)@.push(StateView::fresh(false)),
            valid_forest(final(forest)@),
    {
        let ghost before = forest@;
        let id: usize = forest.nodes.len();
        forest.nodes.push(State::new());
        proof {
            assert(forest@ =~= before.push(StateView::fresh(false)));
            lemma_grown_forest(before, forest@);
        }
        CancellationToken { id }
    }

    /// Checks if this token is cancelled.
    pub fn is_cancelled<W>(&self, forest: &TokenForest<W>) -> (cancelled: bool)
        requires
            0 <= self@ < forest@.len(),
        ensures
            cancelled == forest@[self@].is_cancelled,
    {
        forest.nodes[self.id].is_cancelled
    }

    /// Cancels token and all child tokens.
    /// If token is already cancelled, does nothing.
    ///
    /// Returns the wakers of the tasks that waited for one of these tokens:
    /// a token's own tasks first, then those of the tokens below it.
    pub fn cancel<W>(&self, forest: &mut TokenForest<W>) -> (woken: Vec<W>)
        requires
            valid_forest(old(forest)@),
            0 <= self@ < old(forest)@.len(),
        ensures
            final(forest)@ == after_cancel(old(forest)@, self@),
            woken@ == pending(old(forest)@, preorder(shape(old(forest)@), self@)),
            valid_forest(final(forest)@),
    {
        let ghost before = forest@;
        let mut woken: Vec<W> = Vec::new();
        forest.cancel_node(self.id, &mut woken);
        proof {
            lemma_cancel_keeps_valid(before, self@);
        }
        woken
    }

    /// Creates new token that will be cancelled when this is.
    /// If this is already cancelled, child will be immediately cancelled.
    pub fn child_token<W>(&self, forest: &mut TokenForest<W>) -> (token: CancellationToken)
        requires
            valid_forest(old(forest)@),
            0 <= self@ < old(forest)@.len(),
        ensures
            token@ == old(forest)@.len() <= usize::MAX,
            final(forest)@ == with_child(old(forest)@, self@),
            valid_forest(final(forest)@),
    {
        let ghost before = forest@;
        let mut child_state: State<W> = State::new();
        child_state.is_cancelled = self.is_cancelled(forest);
        let id: usize = forest.nodes.len();
        forest.nodes.push(child_state);
        forest.nodes[self.id].children.push(id);
        proof {
            assert(forest@ =~= with_child(before, self@));
            lemma_child_keeps_valid(before, self@);
        }
        CancellationToken { id }
    }

    /// Whether one more waker can be registered with this token.
    pub fn accepts_waiter<W>(&self, forest: &TokenForest<W>) -> (accepts: bool)
        requires
            0 <= self@ < forest@.len(),
        ensures
            accepts == (forest@[self@].next_generation < usize::MAX),
    {
        forest.nodes[self.id].next_generation < usize::MAX
    }

    /// Returns future that resolves when token is cancelled.
    /// If this token is already cancelled, future will resolve immediately.
    pub fn cancelled<W>(&self) -> (future: WaitForCancellationFuture<W>)
        ensures
            future.token()@ == self@,
            future.last_used() is None,
    {
        WaitForCancellationFuture { token: *self, last_used_waker: None }
    }
}

/// The forest once a new token hangs below `a`.
pub open spec fn with_child<W>(nodes: Seq<StateView<W>>, a: int) -> Seq<StateView<W>> {
    nodes.update(
        a,
        StateView { children: nodes[a].children.push(nodes.len() as usize), ..nodes[a] },
    ).push(StateView::fresh(nodes[a].is_cancelled))
}

proof fn lemma_grown_forest<W>(before: Seq<StateView<W>>, after: Seq<StateView<W>>)
    requires
        valid_forest(before),
        after == before.push(StateView::fresh(false)),
    ensures
        valid_forest(after),
{
    assert forall|p: int| 0 <= p < before.len() implies shape(after)[p] == #[trigger] shape(
        before,
    )[p] by {}
    let kids = shape(after);
    assert(kids[before.len() as int].len() == 0);
    assert forall|p: int, i: int| 0 <= p < kids.len() && 0 <= i < kids[p].len() implies p
        < #[trigger] kids[p][i] < kids.len() by {
        assert(kids[p][i] == shape(before)[p][i]);
    }
    assert forall|p: int, i: int, q: int, j: int|
        0 <= p < kids.len() && 0 <= i < kids[p].len() && 0 <= q < kids.len() && 0 <= j
            < kids[q].len() && #[trigger] kids[p][i] == #[trigger] kids[q][j] implies p == q && i
        == j by {
        assert(kids[p][i] == shape(before)[p][i]);
        assert(kids[q][j] == shape(before)[q][j]);
    }
    assert forall|p: int, i: int|
        0 <= p < after.len() && after[p].is_cancelled && 0 <= i < after[p].children.len() implies after[(#[trigger] after[p].children[i]) as int].is_cancelled by {
        assert(shape(before)[p][i] == before[p].children[i]);
    }
}

proof fn lemma_cancel_keeps_valid<W>(before: Seq<StateView<W>>, a: int)
    requires
        valid_forest(before),
        0 <= a < before.len(),
    ensures
        valid_forest(after_cancel(before, a)),
{
    let after = after_cancel(before, a);
    assert(shape(after) =~= shape(before));
    assert forall|p: int, i: int|
        0 <= p < after.len() && after[p].is_cancelled && 0 <= i < after[p].children.len() implies after[(#[trigger] after[p].children[i]) as int].is_cancelled by {
        let c = before[p].children[i] as int;
        assert(shape(before)[p][i] == before[p].children[i]);
        if below(shape(before), a, p) {
            lemma_child_below(shape(before), p, i);
            lemma_below_trans(shape(before), a, p, c);
        }
    }
}

proof fn lemma_child_keeps_valid<W>(before: Seq<StateView<W>>, a: int)
    requires
        valid_forest(before),
        0 <= a < before.len() <= usize::MAX,
    ensures
        valid_forest(with_child(before, a)),
{
    let after = with_child(before, a);
    let old_kids = shape(before);
    let kids = shape(after);
    assert(kids[before.len() as int].len() == 0);
    assert forall|p: int, i: int| 0 <= p < kids.len() && 0 <= i < kids[p].len() implies p
        < #[trigger] kids[p][i] < kids.len() by {
        if i < old_kids[p].len() {
            assert(kids[p][i] == old_kids[p][i]);
        }
    }
    assert forall|p: int, i: int, q: int, j: int|
        0 <= p < kids.len() && 0 <= i < kids[p].len() && 0 <= q < kids.len() && 0 <= j
            < kids[q].len() && #[trigger] kids[p][i] == #[trigger] kids[q][j] implies p == q && i
        == j by {
        if i < old_kids[p].len() {
            assert(kids[p][i] == old_kids[p][i]);
        }
        if j < old_kids[q].len() {
            assert(kids[q][j] == old_kids[q][j]);
        }
    }
    assert forall|p: int, i: int|
        0 <= p < after.len() && after[p].is_cancelled && 0 <= i < after[p].children.len() implies after[(#[trigger] after[p].children[i]) as int].is_cancelled by {
        if i < old_kids[p].len() {
            assert(before[p].children[i] == after[p].children[i]);
            assert(old_kids[p][i] == after[p].children[i]);
        }
    }
}

/// Future for the `CancellationToken::cancelled` method.
pub struct WaitForCancellationFuture<W> {
    /// The token that is waited for.
    token: CancellationToken,
    /// As an optimization, we store last waker which polled us.
    /// If we are polled with it again, there is no need in re-registering it.
    last_used_waker: Option<OrdWaker<W>>,
}

/// The state once `waker` is registered, in place of the registration `last`.
pub open spec fn registered<W>(
    state: StateView<W>,
    last: Option<OrdWaker<W>>,
    waker: W,
) -> StateView<W> {
    let kept = match last {
        Some(l) => state.cleaned(Some(l.token)),
        None => state,
    };
    StateView {
        next_generation: kept.next_generation + 1,
        waiters: kept.waiters.push(OrdWaker { waker, token: kept.next_generation as usize }),
        ..kept
    }
}

impl<W> WaitForCancellationFuture<W> {
    /// The token that is waited for.
    pub closed spec fn token(self) -> CancellationToken {
        self.token
    }

    /// The registration made last.
    pub closed spec fn last_used(self) -> Option<OrdWaker<W>> {
        self.last_used_waker
    }
}

impl<W: Clone> WaitForCancellationFuture<W> {
    /// The waker registered last.
    pub fn last_waker(&self) -> (last: Option<&W>)
        ensures
            match self.last_used() {
                Some(l) => last == Some(&l.waker),
                None => last is None,
            },
    {
        match &self.last_used_waker {
            Some(ord_waker) => Some(&ord_waker.waker),
            None => None,
        }
    }

    /// Resolves if the token is cancelled. Otherwise makes sure that a waker
    /// equivalent to `waker` is registered, and no other waker on behalf of this
    /// future: if `same`, the one used last is equivalent to it.
    ///
    /// A token takes at most `usize::MAX` registrations.
    pub fn poll_compared(
        &mut self,
        forest: &mut TokenForest<W>,
        waker: &W,
        same: bool,
    ) -> (outcome: Poll<()>)
        requires
            0 <= old(self).token()@ < old(forest)@.len(),
            old(forest)@[old(self).token()@].is_cancelled || (old(self).last_used() is Some && same)
                || old(forest)@[old(self).token()@].next_generation < usize::MAX,
        ensures
            outcome == if old(forest)@[old(self).token()@].is_cancelled {
                Poll::Ready(())
            } else {
                Poll::Pending
            },
            outcome is Pending ==> final(self).last_used() is Some,
            polls(*old(self), old(forest)@, *waker, same, *final(self), final(forest)@),
            valid_forest(old(forest)@) ==> valid_forest(final(forest)@),
    {
        let id: usize = self.token.id;
        if forest.nodes[id].is_cancelled {
            return Poll::Ready(());
        }
        let ghost before = forest@;
        let stale: Option<usize> = match &self.last_used_waker {
            Some(ord_waker) => {
                if same {
                    return Poll::Pending;
                }
                // old waker is now stale. It must not be woken any more.
                Some(ord_waker.token)
            },
            None => None,
        };
        forest.nodes[id].maybe_cleanup(stale);
        let token: usize = forest.nodes[id].next_generation;
        forest.nodes[id].next_generation = token + 1;
        let registered_waker = waker.clone();
        let kept = OrdWaker { waker: registered_waker.clone(), token };
        self.last_used_waker = Some(kept);
        forest.nodes[id].waiters.push(OrdWaker { waker: registered_waker, token });
        proof {
            assert(forest@ =~= before.update(
                id as int,
                registered(before[id as int], old(self).last_used(), registered_waker),
            ));
            assert(cloned(*waker, registered_waker));
            assert(cloned(registered_waker, kept.waker));
            if valid_forest(before) {
                assert(shape(forest@) =~= shape(before));
                assert forall|p: int, i: int|
                    0 <= p < forest@.len() && forest@[p].is_cancelled && 0 <= i
                        < forest@[p].children.len() implies forest@[(#[trigger] forest@[p].children[i]) as int].is_cancelled by {
                    assert(shape(before)[p][i] == before[p].children[i]);
                }
            }
        }
        Poll::Pending
    }

    /// Resolves if the token is cancelled. Otherwise makes sure that `waker` is
    /// registered. `will_wake` tells whether two wakers wake the same task; it
    /// is asked about the waker used last, if there is one.
    pub fn poll<C: Fn(&W, &W) -> bool>(
        &mut self,
        forest: &mut TokenForest<W>,
        waker: &W,
        will_wake: C,
    ) -> (outcome: Poll<()>)
        requires
            0 <= old(self).token()@ < old(forest)@.len(),
            old(self).last_used() matches Some(l) ==> will_wake.requires((&l.waker, waker)),
            old(forest)@[old(self).token()@].is_cancelled || old(forest)@[old(
                self,
            ).token()@].next_generation < usize::MAX || (old(self).last_used() matches Some(l)
                && forall|same: bool| will_wake.ensures((&l.waker, waker), same) ==> same),
        ensures
            outcome == if old(forest)@[old(self).token()@].is_cancelled {
                Poll::Ready(())
            } else {
                Poll::Pending
            },
            outcome is Pending ==> final(self).last_used() is Some,
            match old(self).last_used() {
                Some(l) => old(forest)@[old(self).token()@].is_cancelled || exists|same: bool|
                    #[trigger] will_wake.ensures((&l.waker, waker), same) && polls(
                        *old(self),
                        old(forest)@,
                        *waker,
                        same,
                        *final(self),
                        final(forest)@,
                    ),
                None => polls(*old(self), old(forest)@, *waker, false, *final(self), final(forest)@),
            },
            old(forest)@[old(self).token()@].is_cancelled ==> polls(
                *old(self),
                old(forest)@,
                *waker,
                false,
                *final(self),
                final(forest)@,
            ),
            valid_forest(old(forest)@) ==> valid_forest(final(forest)@),
    {
        if self.token.is_cancelled(forest) {
            return Poll::Ready(());
        }
        let same: bool = match &self.last_used_waker {
            Some(ord_waker) => will_wake(&ord_waker.waker, waker),
            None => false,
        };
        self.poll_compared(forest, waker, same)
    }
}

/// How the future and the forest change when a clone of `waker` is registered.
pub open spec fn registers<W: Clone>(
    future: WaitForCancellationFuture<W>,
    nodes: Seq<StateView<W>>,
    waker: W,
    new_future: WaitForCancellationFuture<W>,
    new_nodes: Seq<StateView<W>>,
) -> bool {
    let a = future.token()@;
    exists|stored: W|
        {
            &&& #[trigger] cloned(waker, stored)
            &&& new_nodes == nodes.update(a, registered(nodes[a], future.last_used(), stored))
            &&& new_future.last_used() matches Some(l) && cloned(stored, l.waker) && l.token
                == nodes[a].next_generation
        }
}

/// How the future and the forest change when the future is polled with `waker`,
/// and `same` says that the waker used last, if there is one, is equivalent to it.
pub open spec fn polls<W: Clone>(
    future: WaitForCancellationFuture<W>,
    nodes: Seq<StateView<W>>,
    waker: W,
    same: bool,
    new_future: WaitForCancellationFuture<W>,
    new_nodes: Seq<StateView<W>>,
) -> bool {
    &&& new_future.token() == future.token()
    &&& if nodes[future.token()@].is_cancelled || (future.last_used() is Some && same) {
        new_future == future && new_nodes == nodes
    } else {
        registers(future, nodes, waker, new_future, new_nodes)
    }
}

proof fn lemma_preorders_member(shape: Seq<Seq<usize>>, a: int, n: nat, i: int, d: int)
    requires
        is_forest(shape),
        0 <= a < shape.len(),
        0 <= i < n <= shape[a].len(),
        preorder(shape, shape[a][i] as int).contains(d),
    ensures
        preorders(shape, a, n).contains(d),
    decreases n,
{
    let c = shape[a][n - 1] as int;
    let earlier = preorders(shape, a, (n - 1) as nat);
    if i == n - 1 {
        let k = preorder(shape, c).index_of(d);
        assert(preorders(shape, a, n)[earlier.len() + k] == d);
    } else {
        lemma_preorders_member(shape, a, (n - 1) as nat, i, d);
        let k = earlier.index_of(d);
        assert(preorders(shape, a, n)[k] == d);
    }
}

proof fn lemma_preorder_complete(shape: Seq<Seq<usize>>, a: int, d: int)
    requires
        is_forest(shape),
        0 <= a < shape.len(),
        below(shape, a, d),
    ensures
        preorder(shape, a).contains(d),
    decreases shape.len() - a,
{
    if a == d {
        assert(preorder(shape, a)[0] == d);
    } else {
        let i = lemma_below_first_step(shape, a, d);
        lemma_preorder_complete(shape, shape[a][i] as int, d);
        lemma_preorders_member(shape, a, shape[a].len(), i, d);
        let k = preorders(shape, a, shape[a].len()).index_of(d);
        assert(preorder(shape, a)[k + 1] == d);
    }
}

proof fn lemma_preorders_from_child(shape: Seq<Seq<usize>>, a: int, n: nat, d: int)
    requires
        is_forest(shape),
        0 <= a < shape.len(),
        n <= shape[a].len(),
        preorders(shape, a, n).contains(d),
    ensures
        exists|i: int| 0 <= i < n && below(shape, #[trigger] shape[a][i] as int, d),
    decreases n,
{
    if n > 0 {
        let c = shape[a][n - 1] as int;
        let earlier = preorders(shape, a, (n - 1) as nat);
        let k = preorders(shape, a, n).index_of(d);
        if k < earlier.len() {
            assert(earlier[k] == d);
            lemma_preorders_from_child(shape, a, (n - 1) as nat, d);
        } else {
            lemma_preorder_below(shape, c);
            assert(preorder(shape, c)[k - earlier.len()] == d);
            assert(below(shape, shape[a][n - 1] as int, d));
        }
    }
}

proof fn lemma_preorder_distinct(shape: Seq<Seq<usize>>, a: int)
    requires
        is_forest(shape),
        0 <= a < shape.len(),
    ensures
        preorder(shape, a).no_duplicates(),
    decreases shape.len() - a, shape[a].len() + 1,
{
    let n = shape[a].len();
    lemma_preorders_distinct(shape, a, n);
    let rest = preorders(shape, a, n);
    if rest.contains(a) {
        lemma_preorders_from_child(shape, a, n, a);
        let i = choose|i: int| 0 <= i < n && below(shape, #[trigger] shape[a][i] as int, a);
        lemma_below_older(shape, shape[a][i] as int, a);
    }
    let all = preorder(shape, a);
    assert forall|x: int, y: int| 0 <= x < y < all.len() implies all[x] != all[y] by {
        assert(all[y] == rest[y - 1]);
        if x > 0 {
            assert(all[x] == rest[x - 1]);
        } else {
            assert(rest.contains(all[y]));
        }
    }
}

proof fn lemma_preorders_distinct(shape: Seq<Seq<usize>>, a: int, n: nat)
    requires
        is_forest(shape),
        0 <= a < shape.len(),
        n <= shape[a].len(),
    ensures
        preorders(shape, a, n).no_duplicates(),
    decreases shape.len() - a, n,
{
    if n > 0 {
        let c = shape[a][n - 1] as int;
        let earlier = preorders(shape, a, (n - 1) as nat);
        let last = preorder(shape, c);
        lemma_preorders_distinct(shape, a, (n - 1) as nat);
        lemma_preorder_distinct(shape, c);
        lemma_preorder_below(shape, c);
        let all = preorders(shape, a, n);
        assert forall|x: int, y: int| 0 <= x < y < all.len() implies all[x] != all[y] by {
            if y < earlier.len() {
                assert(all[x] == earlier[x] && all[y] == earlier[y]);
            } else if x >= earlier.len() {
                assert(all[x] == last[x - earlier.len()] && all[y] == last[y - earlier.len()]);
            } else {
                assert(all[x] == earlier[x] && all[y] == last[y - earlier.len()]);
                if all[x] == all[y] {
                    assert(earlier.contains(all[x]));
                    lemma_preorders_from_child(shape, a, (n - 1) as nat, all[x]);
                    let i = choose|i: int|
                        0 <= i < n - 1 && below(shape, #[trigger] shape[a][i] as int, all[x]);
                    lemma_siblings_disjoint(shape, a, i, n - 1, all[x]);
                }
            }
        }
    }
}

/// Cancelling a token visits every token below it, and the token itself, exactly once.
pub proof fn law_cancel_visits_each_token_once<W>(nodes: Seq<StateView<W>>, a: int)
    requires
        valid_forest(nodes),
        0 <= a < nodes.len(),
    ensures
        preorder(shape(nodes), a).no_duplicates(),
        forall|d: int|
            #[trigger] preorder(shape(nodes), a).contains(d) <==> 0 <= d < nodes.len() && below(
                shape(nodes),
                a,
                d,
            ),
{
    let kids = shape(nodes);
    lemma_preorder_distinct(kids, a);
    lemma_preorder_below(kids, a);
    assert forall|d: int| #[trigger] preorder(kids, a).contains(d) <==> 0 <= d < nodes.len()
        && below(kids, a, d) by {
        if preorder(kids, a).contains(d) {
            let k = preorder(kids, a).index_of(d);
            assert(preorder(kids, a)[k] == d);
        } else if 0 <= d < nodes.len() && below(kids, a, d) {
            lemma_preorder_complete(kids, a, d);
        }
    }
}

proof fn lemma_pending_member<W>(nodes: Seq<StateView<W>>, order: Seq<int>, d: int, i: int)
    requires
        order.contains(d),
        !nodes[d].is_cancelled,
        0 <= i < nodes[d].waiters.len(),
    ensures
        pending(nodes, order).contains(nodes[d].waiters[i].waker),
    decreases order.len(),
{
    let waker = nodes[d].waiters[i].waker;
    let earlier = pending(nodes, order.drop_last());
    if order.last() == d {
        assert(nodes[d].wakers()[i] == waker);
        assert(pending(nodes, order)[earlier.len() + i] == waker);
    } else {
        let k = order.index_of(d);
        assert(order.drop_last()[k] == d);
        lemma_pending_member(nodes, order.drop_last(), d, i);
        let x = earlier.index_of(waker);
        assert(pending(nodes, order)[x] == waker);
    }
}

/// No waiting task is forgotten: cancelling a token hands out the waker of every
/// task that waits for it or for a token below it.
pub proof fn law_cancel_wakes_every_waiter<W>(nodes: Seq<StateView<W>>, a: int, d: int, i: int)
    requires
        valid_forest(nodes),
        0 <= a < nodes.len(),
        0 <= d < nodes.len(),
        below(shape(nodes), a, d),
        !nodes[d].is_cancelled,
        0 <= i < nodes[d].waiters.len(),
    ensures
        pending(nodes, preorder(shape(nodes), a)).contains(nodes[d].waiters[i].waker),
{
    lemma_preorder_complete(shape(nodes), a, d);
    lemma_pending_member(nodes, preorder(shape(nodes), a), d, i);
}

/// Cancelling a cancelled token changes nothing and wakes nobody.
pub proof fn law_cancel_twice_is_cancel_once<W>(nodes: Seq<StateView<W>>, a: int)
    requires
        valid_forest(nodes),
        0 <= a < nodes.len(),
    ensures
        after_cancel(after_cancel(nodes, a), a) == after_cancel(nodes, a),
        nodes[a].is_cancelled ==> after_cancel(nodes, a) == nodes,
        pending(after_cancel(nodes, a), preorder(shape(nodes), a)) == Seq::<W>::empty(),
        nodes[a].is_cancelled ==> pending(nodes, preorder(shape(nodes), a)) == Seq::<W>::empty(),
{
    let kids = shape(nodes);
    let after = after_cancel(nodes, a);
    assert(shape(after) =~= kids);
    assert(after_cancel(after, a) =~= after);
    lemma_preorder_below(kids, a);
    lemma_pending_none(after, preorder(kids, a));
    if nodes[a].is_cancelled {
        assert forall|d: int| below(kids, a, d) implies nodes[d].is_cancelled by {
            lemma_cancelled_below(nodes, a, d);
        }
        assert(after =~= nodes);
        lemma_pending_none(nodes, preorder(kids, a));
    }
}

/// A cancelled token stays cancelled, whatever token is cancelled or created afterwards.
pub proof fn law_cancellation_is_permanent<W>(nodes: Seq<StateView<W>>, a: int, d: int)
    requires
        0 <= a < nodes.len(),
        0 <= d < nodes.len(),
        nodes[d].is_cancelled,
    ensures
        after_cancel(nodes, a)[d].is_cancelled,
        with_child(nodes, a)[d].is_cancelled,
        nodes.push(StateView::fresh(false))[d].is_cancelled,
{
}

/// A child is cancelled from the start iff its parent is, and together with it
/// otherwise. The other way round nothing happens: making a child does not cancel
/// the parent, and neither does cancelling the child. Whichever comes first, making
/// the child or cancelling the parent, the child ends up cancelled.
pub proof fn law_child_follows_parent<W>(nodes: Seq<StateView<W>>, a: int)
    requires
        valid_forest(nodes),
        0 <= a < nodes.len() <= usize::MAX,
    ensures
        with_child(nodes, a)[nodes.len() as int].is_cancelled == nodes[a].is_cancelled,
        with_child(nodes, a)[a].is_cancelled == nodes[a].is_cancelled,
        below(shape(with_child(nodes, a)), a, nodes.len() as int),
        after_cancel(with_child(nodes, a), a)[nodes.len() as int].is_cancelled,
        with_child(after_cancel(nodes, a), a)[nodes.len() as int].is_cancelled,
        after_cancel(with_child(nodes, a), nodes.len() as int)[a] == with_child(nodes, a)[a],
{
    lemma_child_keeps_valid(nodes, a);
    let grown = with_child(nodes, a);
    let i = nodes[a].children.len() as int;
    assert(shape(grown)[a][i] == nodes.len());
    lemma_child_below(shape(grown), a, i);
    law_cancel_spares_the_rest(grown, nodes.len() as int, a);
}

/// Cancelling a token spares its parent and everything else that is not below it.
pub proof fn law_cancel_spares_the_rest<W>(nodes: Seq<StateView<W>>, a: int, d: int)
    requires
        valid_forest(nodes),
        0 <= a < nodes.len(),
        0 <= d < nodes.len(),
        d < a || !below(shape(nodes), a, d),
    ensures
        after_cancel(nodes, a)[d] == nodes[d],
{
    if below(shape(nodes), a, d) {
        lemma_below_older(shape(nodes), a, d);
    }
}

/// The numbers under which the waiting tasks are registered.
pub open spec fn tokens<W>(state: StateView<W>) -> Set<usize> {
    state.waiters.map_values(|w: OrdWaker<W>| w.token).to_set()
}

/// Registration numbers are distinct and used up in order.
pub open spec fn tidy<W>(state: StateView<W>) -> bool {
    &&& state.waiters.map_values(|w: OrdWaker<W>| w.token).no_duplicates()
    &&& forall|i: int|
        0 <= i < state.waiters.len() ==> (#[trigger] state.waiters[i]).token
            < state.next_generation
}

proof fn lemma_others_member<W>(waiters: Seq<OrdWaker<W>>, token: usize, k: int)
    ensures
        0 <= k < waiters.len() && waiters[k].token != token ==> others(waiters, token).contains(
            waiters[k],
        ),
        forall|i: int|
            0 <= i < others(waiters, token).len() ==> (#[trigger] others(waiters, token)[i]).token
                != token && waiters.contains(others(waiters, token)[i]),
    decreases waiters.len(),
{
    reveal(Seq::filter);
    if waiters.len() > 0 {
        let shorter = waiters.drop_last();
        let earlier = others(shorter, token);
        let all = others(waiters, token);
        lemma_others_member(shorter, token, k);
        assert forall|i: int| 0 <= i < all.len() implies (#[trigger] all[i]).token != token
            && waiters.contains(all[i]) by {
            if i < earlier.len() {
                assert(all[i] == earlier[i]);
                let j = shorter.index_of(earlier[i]);
                assert(waiters[j] == all[i]);
            } else {
                assert(waiters[waiters.len() - 1] == all[i]);
            }
        }
        if 0 <= k < waiters.len() && waiters[k].token != token {
            if k < shorter.len() {
                assert(shorter[k] == waiters[k]);
                let j = earlier.index_of(waiters[k]);
                assert(all[j] == waiters[k]);
            } else {
                assert(all[all.len() - 1] == waiters[k]);
            }
        }
    }
}

/// The numbers of registrations.
spec fn numbers<W>(waiters: Seq<OrdWaker<W>>) -> Seq<usize> {
    waiters.map_values(|w: OrdWaker<W>| w.token)
}

/// Deleting a registration deletes exactly one waiter, where numbers are distinct.
proof fn lemma_others_len<W>(waiters: Seq<OrdWaker<W>>, token: usize)
    requires
        numbers(waiters).no_duplicates(),
    ensures
        numbers(others(waiters, token)).no_duplicates(),
        others(waiters, token).len() == if numbers(waiters).contains(token) {
            waiters.len() - 1
        } else {
            waiters.len() as int
        },
    decreases waiters.len(),
{
    reveal(Seq::filter);
    if waiters.len() > 0 {
        let shorter = waiters.drop_last();
        let earlier = others(shorter, token);
        let all = others(waiters, token);
        assert(numbers(shorter) =~= numbers(waiters).drop_last());
        lemma_others_len(shorter, token);
        lemma_others_member(shorter, token, 0);
        let last = waiters.last().token;
        assert(numbers(waiters)[waiters.len() - 1] == last);
        assert forall|i: int| 0 <= i < earlier.len() implies numbers(earlier)[i] != last by {
            let j = shorter.index_of(earlier[i]);
            assert(numbers(waiters)[j] == earlier[i].token);
        }
        assert forall|i: int, j: int|
            0 <= i < all.len() && 0 <= j < all.len() && i != j implies numbers(all)[i]
            != numbers(all)[j] by {
            if i < earlier.len() {
                assert(numbers(all)[i] == numbers(earlier)[i]);
            }
            if j < earlier.len() {
                assert(numbers(all)[j] == numbers(earlier)[j]);
            }
        }
        if numbers(shorter).contains(token) {
            let j = numbers(shorter).index_of(token);
            assert(numbers(waiters)[j] == token);
        }
        if numbers(waiters).contains(token) && last != token {
            let j = numbers(waiters).index_of(token);
            assert(numbers(shorter)[j] == token);
        }
    }
}

/// A waker that is registered takes the place of the one that was registered
/// before on behalf of the same future, which is not woken any more. Everybody
/// else stays registered, and the state remains tidy.
pub proof fn law_registering_replaces_the_last<W>(
    state: StateView<W>,
    last: Option<OrdWaker<W>>,
    waker: W,
)
    requires
        tidy(state),
        state.next_generation < usize::MAX,
        last matches Some(l) ==> tokens(state).contains(l.token),
    ensures
        tidy(registered(state, last, waker)),
        registered(state, last, waker).waiters.len() == if last is None {
            state.waiters.len() + 1
        } else {
            state.waiters.len()
        },
        forall|i: int|
            0 <= i < state.waiters.len() && (last matches Some(l) ==> state.waiters[i].token
                != l.token) ==> registered(state, last, waker).waiters.contains(
                #[trigger] state.waiters[i],
            ),
        registered(state, last, waker).waiters.last() == (OrdWaker {
            waker,
            token: state.next_generation as usize,
        }),
        tokens(registered(state, last, waker)) == (match last {
            Some(l) => tokens(state).remove(l.token),
            None => tokens(state),
        }).insert(state.next_generation as usize),
{
    let new = OrdWaker { waker, token: state.next_generation as usize };
    let kept = match last {
        Some(l) => state.cleaned(Some(l.token)),
        None => state,
    };
    let after = registered(state, last, waker);
    if let Some(l) = last {
        lemma_others_len(state.waiters, l.token);
        lemma_others_member(state.waiters, l.token, 0);
    }
    assert forall|i: int| 0 <= i < kept.waiters.len() implies state.waiters.contains(
        #[trigger] kept.waiters[i],
    ) && kept.waiters[i].token < state.next_generation by {
        if last is None {
            assert(state.waiters[i] == kept.waiters[i]);
        }
        let j = state.waiters.index_of(kept.waiters[i]);
        assert(state.waiters[j].token < state.next_generation);
    }
    assert forall|i: int|
        0 <= i < state.waiters.len() && (last matches Some(l) ==> state.waiters[i].token
            != l.token) implies kept.waiters.contains(#[trigger] state.waiters[i])
        && after.waiters.contains(state.waiters[i]) by {
        if let Some(l) = last {
            lemma_others_member(state.waiters, l.token, i);
        }
        let j = kept.waiters.index_of(state.waiters[i]);
        assert(after.waiters[j] == state.waiters[i]);
    }
    assert(after.waiters[after.waiters.len() - 1] == new);
    let new_numbers = numbers(after.waiters);
    assert(new_numbers =~= numbers(kept.waiters).push(new.token));
    assert forall|i: int| 0 <= i < kept.waiters.len() implies #[trigger] numbers(kept.waiters)[i]
        < state.next_generation by {
        assert(kept.waiters[i].token == numbers(kept.waiters)[i]);
    }
    let expected = (match last {
        Some(l) => tokens(state).remove(l.token),
        None => tokens(state),
    }).insert(new.token);
    assert forall|n: usize| tokens(after).contains(n) <==> expected.contains(n) by {
        if tokens(after).contains(n) && n != new.token {
            let j = new_numbers.index_of(n);
            assert(kept.waiters[j].token == n);
            let k = state.waiters.index_of(kept.waiters[j]);
            assert(numbers(state.waiters)[k] == n);
        }
        if expected.contains(n) && n != new.token {
            let k = numbers(state.waiters).index_of(n);
            assert(state.waiters[k].token == n);
            let j = after.waiters.index_of(state.waiters[k]);
            assert(new_numbers[j] == n);
        }
        assert(new_numbers[new_numbers.len() - 1] == new.token);
    }
    assert(tokens(after) =~= expected);
}

/// The state, and the future's registration, after the future was polled with
/// the given wakers, each of which is unlike the one before.
pub open spec fn polled_with<W>(
    state: StateView<W>,
    last: Option<OrdWaker<W>>,
    wakers: Seq<W>,
) -> (StateView<W>, Option<OrdWaker<W>>)
    decreases wakers.len(),
{
    if wakers.len() == 0 {
        (state, last)
    } else {
        let (before, previous) = polled_with(state, last, wakers.drop_last());
        (
            registered(before, previous, wakers.last()),
            Some(OrdWaker { waker: wakers.last(), token: before.next_generation as usize }),
        )
    }
}

/// However often a future is polled, it has one registration: that of the waker
/// it was polled with last.
pub proof fn law_a_future_is_registered_once<W>(state: StateView<W>, wakers: Seq<W>)
    requires
        tidy(state),
        wakers.len() > 0,
        state.next_generation + wakers.len() <= usize::MAX,
    ensures
        ({
            let after = polled_with(state, None, wakers).0;
            &&& tidy(after)
            &&& after.waiters.len() == state.waiters.len() + 1
            &&& after.waiters.last().waker == wakers.last()
            &&& after.waiters.last().token == state.next_generation + wakers.len() - 1
            &&& polled_with(state, None, wakers).1 == Some(after.waiters.last())
            &&& after.next_generation == state.next_generation + wakers.len()
            &&& forall|i: int|
                0 <= i < state.waiters.len() ==> after.waiters.contains(#[trigger] state.waiters[i])
        }),
    decreases wakers.len(),
{
    let shorter = wakers.drop_last();
    let (before, previous) = polled_with(state, None, shorter);
    if shorter.len() > 0 {
        law_a_future_is_registered_once(state, shorter);
        let n = before.waiters.len() - 1;
        assert(numbers(before.waiters)[n] == previous->0.token);
        assert(tokens(before).contains(previous->0.token));
    } else {
        assert(before == state && previous is None);
    }
    law_registering_replaces_the_last(before, previous, wakers.last());
    let after = polled_with(state, None, wakers).0;
    assert forall|i: int| 0 <= i < state.waiters.len() implies after.waiters.contains(
        #[trigger] state.waiters[i],
    ) by {
        if shorter.len() > 0 {
            let j = before.waiters.index_of(state.waiters[i]);
            assert(before.waiters[j].token != previous->0.token);
        }
    }
}

/// Whether a waker of which `last.waker` is a clone waits under the number `last.token`.
pub open spec fn is_registered<W: Clone>(state: StateView<W>, last: OrdWaker<W>) -> bool {
    exists|k: int|
        0 <= k < state.waiters.len() && (#[trigger] state.waiters[k]).token == last.token
            && cloned(state.waiters[k].waker, last.waker)
}

/// Whether `future` is registered with its token, if it has to be: it was polled
/// and the token is not cancelled.
pub open spec fn is_kept<W: Clone>(
    nodes: Seq<StateView<W>>,
    future: WaitForCancellationFuture<W>,
) -> bool {
    &&& 0 <= future.token()@ < nodes.len()
    &&& !nodes[future.token()@].is_cancelled ==> (future.last_used() matches Some(l)
        ==> is_registered(nodes[future.token()@], l))
}

/// Whether two futures have different registrations, if both have one with the same token.
pub open spec fn is_apart<W>(
    first: WaitForCancellationFuture<W>,
    second: WaitForCancellationFuture<W>,
) -> bool {
    first.token()@ == second.token()@ ==> (first.last_used() matches Some(l) ==> (
    second.last_used() matches Some(m) ==> l.token != m.token))
}

/// What holds of a forest and all futures that wait for its tokens: every future
/// that was polled has a registration of its own.
pub open spec fn all_kept<W: Clone>(
    nodes: Seq<StateView<W>>,
    futures: Seq<WaitForCancellationFuture<W>>,
) -> bool {
    &&& forall|t: int| 0 <= t < nodes.len() && !nodes[t].is_cancelled ==> tidy(#[trigger] nodes[t])
    &&& forall|i: int| 0 <= i < futures.len() ==> is_kept(nodes, #[trigger] futures[i])
    &&& forall|i: int, j: int|
        0 <= i < futures.len() && 0 <= j < futures.len() && i != j ==> is_apart(
            #[trigger] futures[i],
            #[trigger] futures[j],
        )
}

proof fn lemma_registered_number<W: Clone>(state: StateView<W>, last: OrdWaker<W>)
    requires
        is_registered(state, last),
    ensures
        tokens(state).contains(last.token),
{
    let k = choose|k: int|
        0 <= k < state.waiters.len() && (#[trigger] state.waiters[k]).token == last.token
            && cloned(state.waiters[k].waker, last.waker);
    assert(numbers(state.waiters)[k] == last.token);
}

/// A poll, whatever it comes to, keeps every future registered, and if it is
/// pending, then the future that was polled is registered as well.
pub proof fn law_poll_keeps_futures_registered<W: Clone>(
    nodes: Seq<StateView<W>>,
    futures: Seq<WaitForCancellationFuture<W>>,
    i: int,
    waker: W,
    same: bool,
    new_future: WaitForCancellationFuture<W>,
    new_nodes: Seq<StateView<W>>,
)
    requires
        all_kept(nodes, futures),
        0 <= i < futures.len(),
        nodes[futures[i].token()@].is_cancelled || (futures[i].last_used() is Some && same)
            || nodes[futures[i].token()@].next_generation < usize::MAX,
        polls(futures[i], nodes, waker, same, new_future, new_nodes),
    ensures
        all_kept(new_nodes, futures.update(i, new_future)),
        !nodes[futures[i].token()@].is_cancelled ==> (new_future.last_used() matches Some(l)
            && is_registered(new_nodes[new_future.token()@], l)),
{
    let future = futures[i];
    let a = future.token()@;
    let after = futures.update(i, new_future);
    assert(is_kept(nodes, future));
    if nodes[a].is_cancelled || (future.last_used() is Some && same) {
        assert(after =~= futures);
    } else {
        let last = future.last_used();
        let stored = choose|stored: W|
            {
                &&& #[trigger] cloned(waker, stored)
                &&& new_nodes == nodes.update(a, registered(nodes[a], last, stored))
                &&& new_future.last_used() matches Some(l) && cloned(stored, l.waker) && l.token
                    == nodes[a].next_generation
            };
        let state = nodes[a];
        let new_state = registered(state, last, stored);
        let l = new_future.last_used()->0;
        if let Some(previous) = last {
            lemma_registered_number(state, previous);
        }
        assert(tidy(nodes[a]));
        law_registering_replaces_the_last(state, last, stored);
        let end = new_state.waiters.len() - 1;
        assert(new_state.waiters[end] == new_state.waiters.last());
        assert(is_registered(new_state, l));
        assert forall|j: int| 0 <= j < after.len() implies is_kept(
            new_nodes,
            #[trigger] after[j],
        ) by {
            if j != i {
                assert(after[j] == futures[j]);
                assert(is_kept(nodes, futures[j]));
                assert(is_apart(futures[i], futures[j]));
                if futures[j].token()@ == a && futures[j].last_used() is Some {
                    let other = futures[j].last_used()->0;
                    let k = choose|k: int|
                        0 <= k < state.waiters.len() && (#[trigger] state.waiters[k]).token
                            == other.token && cloned(state.waiters[k].waker, other.waker);
                    assert(new_state.waiters.contains(state.waiters[k]));
                    let m = new_state.waiters.index_of(state.waiters[k]);
                    assert(new_state.waiters[m].token == other.token);
                    assert(is_registered(new_state, other));
                }
            }
        }
        assert forall|j: int| 0 <= j < futures.len() && j != i implies is_apart(
            new_future,
            #[trigger] futures[j],
        ) && is_apart(futures[j], new_future) by {
            assert(is_kept(nodes, futures[j]));
            if futures[j].token()@ == a && futures[j].last_used() is Some {
                let other = futures[j].last_used()->0;
                let k = choose|k: int|
                    0 <= k < state.waiters.len() && (#[trigger] state.waiters[k]).token
                        == other.token && cloned(state.waiters[k].waker, other.waker);
                assert(state.waiters[k].token < state.next_generation);
            }
        }
        assert forall|j: int, k: int|
            0 <= j < after.len() && 0 <= k < after.len() && j != k implies is_apart(
            #[trigger] after[j],
            #[trigger] after[k],
        ) by {
            if j != i && k != i {
                assert(is_apart(futures[j], futures[k]));
            } else if j == i {
                assert(after[k] == futures[k]);
            } else {
                assert(after[j] == futures[j]);
            }
        }
    }
}

/// Making and giving up futures keeps the others registered.
pub proof fn law_futures_come_and_go<W: Clone>(
    nodes: Seq<StateView<W>>,
    futures: Seq<WaitForCancellationFuture<W>>,
    i: int,
    made: WaitForCancellationFuture<W>,
)
    requires
        all_kept(nodes, futures),
    ensures
        0 <= made.token()@ < nodes.len() && made.last_used() is None ==> all_kept(
            nodes,
            futures.push(made),
        ),
        0 <= i < futures.len() ==> all_kept(nodes, futures.remove(i)),
{
    if 0 <= made.token()@ < nodes.len() && made.last_used() is None {
        let more = futures.push(made);
        assert forall|j: int| 0 <= j < more.len() implies is_kept(nodes, #[trigger] more[j]) by {
            if j < futures.len() {
                assert(is_kept(nodes, futures[j]));
            }
        }
        assert forall|j: int, k: int|
            0 <= j < more.len() && 0 <= k < more.len() && j != k implies is_apart(
            #[trigger] more[j],
            #[trigger] more[k],
        ) by {
            if j < futures.len() && k < futures.len() {
                assert(is_apart(futures[j], futures[k]));
            }
        }
    }
    if 0 <= i < futures.len() {
        let fewer = futures.remove(i);
        let old_place = |j: int| if j < i { j } else { j + 1 };
        assert forall|j: int| 0 <= j < fewer.len() implies is_kept(nodes, #[trigger] fewer[j]) by {
            assert(fewer[j] == futures[old_place(j)]);
        }
        assert forall|j: int, k: int|
            0 <= j < fewer.len() && 0 <= k < fewer.len() && j != k implies is_apart(
            #[trigger] fewer[j],
            #[trigger] fewer[k],
        ) by {
            assert(is_apart(futures[old_place(j)], futures[old_place(k)]));
        }
    }
}

/// Making and cancelling tokens keeps every future registered.
pub proof fn law_tokens_keep_futures_registered<W: Clone>(
    nodes: Seq<StateView<W>>,
    futures: Seq<WaitForCancellationFuture<W>>,
    op: Op<W>,
)
    requires
        all_kept(nodes, futures),
        can_happen(nodes, op),
        !(op is Register),
    ensures
        all_kept(after_op(nodes, op), futures),
{
    let after = after_op(nodes, op);
    assert forall|t: int| 0 <= t < nodes.len() && !(#[trigger] after[t]).is_cancelled implies
        !nodes[t].is_cancelled && after[t].waiters == nodes[t].waiters && after[t].next_generation
        == nodes[t].next_generation by {}
    assert forall|t: int| 0 <= t < after.len() && !after[t].is_cancelled implies tidy(
        #[trigger] after[t],
    ) by {
        if t < nodes.len() {
            assert(tidy(nodes[t]));
        }
    }
    assert forall|j: int| 0 <= j < futures.len() implies is_kept(after, #[trigger] futures[j]) by {
        assert(is_kept(nodes, futures[j]));
        let t = futures[j].token()@;
        if futures[j].last_used() is Some && !after[t].is_cancelled {
            let l = futures[j].last_used()->0;
            let k = choose|k: int|
                0 <= k < nodes[t].waiters.len() && (#[trigger] nodes[t].waiters[k]).token == l.token
                    && cloned(nodes[t].waiters[k].waker, l.waker);
            assert(after[t].waiters[k] == nodes[t].waiters[k]);
            assert(is_registered(after[t], l));
        }
    }
}

/// Cancelling a token wakes every future that waits for it or for a token below
/// it: among the wakers handed out there is one of which the future's is a clone.
/// Afterwards the future's token is cancelled, so the future resolves when polled.
pub proof fn law_cancel_wakes_every_future<W: Clone>(
    nodes: Seq<StateView<W>>,
    futures: Seq<WaitForCancellationFuture<W>>,
    a: int,
    i: int,
)
    requires
        valid_forest(nodes),
        all_kept(nodes, futures),
        0 <= a < nodes.len(),
        0 <= i < futures.len(),
        below(shape(nodes), a, futures[i].token()@),
        !nodes[futures[i].token()@].is_cancelled,
        futures[i].last_used() is Some,
    ensures
        exists|woken: W| #[trigger]
            pending(nodes, preorder(shape(nodes), a)).contains(woken) && cloned(
                woken,
                futures[i].last_used()->0.waker,
            ),
        after_cancel(nodes, a)[futures[i].token()@].is_cancelled,
{
    let t = futures[i].token()@;
    let l = futures[i].last_used()->0;
    assert(is_kept(nodes, futures[i]));
    let k = choose|k: int|
        0 <= k < nodes[t].waiters.len() && (#[trigger] nodes[t].waiters[k]).token == l.token
            && cloned(nodes[t].waiters[k].waker, l.waker);
    law_cancel_wakes_every_waiter(nodes, a, t, k);
    assert(pending(nodes, preorder(shape(nodes), a)).contains(nodes[t].waiters[k].waker));
}

/// Whether `like` can tell which wakers wake the same task: clones do.
pub open spec fn is_likeness<W: Clone>(like: spec_fn(W, W) -> bool) -> bool {
    &&& forall|a: W, b: W| #[trigger] like(a, b) ==> like(b, a)
    &&& forall|a: W, b: W, c: W| #[trigger] like(a, b) && #[trigger] like(b, c) ==> like(a, c)
    &&& forall|a: W, b: W| #[trigger] cloned(a, b) ==> like(a, b)
}

/// Whether the registration of each future wakes the same task as the waker that
/// the future was polled with latest.
pub open spec fn all_served<W>(
    futures: Seq<WaitForCancellationFuture<W>>,
    latest: Seq<W>,
    like: spec_fn(W, W) -> bool,
) -> bool {
    &&& futures.len() == latest.len()
    &&& forall|i: int|
        0 <= i < futures.len() ==> ((#[trigger] futures[i]).last_used() matches Some(l) ==> like(
            l.waker,
            latest[i],
        ))
}

/// A poll that is pending makes sure that the task of the waker it was made with
/// will be woken, and keeps that for all other futures.
pub proof fn law_poll_serves_latest_waker<W: Clone>(
    nodes: Seq<StateView<W>>,
    futures: Seq<WaitForCancellationFuture<W>>,
    latest: Seq<W>,
    like: spec_fn(W, W) -> bool,
    i: int,
    waker: W,
    same: bool,
    new_future: WaitForCancellationFuture<W>,
    new_nodes: Seq<StateView<W>>,
)
    requires
        is_likeness(like),
        all_served(futures, latest, like),
        0 <= i < futures.len(),
        !nodes[futures[i].token()@].is_cancelled,
        same ==> (futures[i].last_used() matches Some(l) ==> like(l.waker, waker)),
        polls(futures[i], nodes, waker, same, new_future, new_nodes),
    ensures
        new_future.last_used() is Some,
        all_served(futures.update(i, new_future), latest.update(i, waker), like),
{
    let after = futures.update(i, new_future);
    let now = latest.update(i, waker);
    if !(futures[i].last_used() is Some && same) {
        let a = futures[i].token()@;
        let stored = choose|stored: W|
            {
                &&& #[trigger] cloned(waker, stored)
                &&& new_nodes == nodes.update(
                    a,
                    registered(nodes[a], futures[i].last_used(), stored),
                )
                &&& new_future.last_used() matches Some(l) && cloned(stored, l.waker) && l.token
                    == nodes[a].next_generation
            };
        let l = new_future.last_used()->0;
        assert(like(waker, stored) && like(stored, l.waker));
        assert(like(waker, l.waker));
    }
    assert forall|j: int| 0 <= j < after.len() implies ((
    #[trigger] after[j]).last_used() matches Some(l) ==> like(l.waker, now[j])) by {
        if j != i {
            assert(after[j] == futures[j]);
        }
    }
}

/// Cancelling a token wakes, for every future that waits for it or for a token
/// below it, the task of the waker that the future was polled with latest.
pub proof fn law_cancel_wakes_latest_wakers<W: Clone>(
    nodes: Seq<StateView<W>>,
    futures: Seq<WaitForCancellationFuture<W>>,
    latest: Seq<W>,
    like: spec_fn(W, W) -> bool,
    a: int,
    i: int,
)
    requires
        valid_forest(nodes),
        all_kept(nodes, futures),
        is_likeness(like),
        all_served(futures, latest, like),
        0 <= a < nodes.len(),
        0 <= i < futures.len(),
        below(shape(nodes), a, futures[i].token()@),
        !nodes[futures[i].token()@].is_cancelled,
        futures[i].last_used() is Some,
    ensures
        exists|woken: W| #[trigger]
            pending(nodes, preorder(shape(nodes), a)).contains(woken) && like(woken, latest[i]),
        after_cancel(nodes, a)[futures[i].token()@].is_cancelled,
{
    law_cancel_wakes_every_future(nodes, futures, a, i);
    let l = futures[i].last_used()->0;
    let woken = choose|woken: W| #[trigger]
        pending(nodes, preorder(shape(nodes), a)).contains(woken) && cloned(woken, l.waker);
    assert(like(woken, l.waker) && like(l.waker, latest[i]));
}

/// What can happen to a forest.
pub ghost enum Op<W> {
    /// A token is made that hangs below none.
    New,
    /// A token is made that hangs below the given one.
    Child(int),
    /// The given token is cancelled.
    Cancel(int),
    /// A future of the given token registers a waker, in place of its registration
    /// if it has one.
    Register(int, Option<OrdWaker<W>>, W),
}

/// The forest after something happened to it.
pub open spec fn after_op<W>(nodes: Seq<StateView<W>>, op: Op<W>) -> Seq<StateView<W>> {
    match op {
        Op::New => nodes.push(StateView::fresh(false)),
        Op::Child(a) => with_child(nodes, a),
        Op::Cancel(a) => after_cancel(nodes, a),
        Op::Register(a, last, waker) => nodes.update(a, registered(nodes[a], last, waker)),
    }
}

/// Whether this can happen to the forest: only tokens that exist are used, and
/// there is room for one more.
pub open spec fn can_happen<W>(nodes: Seq<StateView<W>>, op: Op<W>) -> bool {
    match op {
        Op::New => nodes.len() <= usize::MAX,
        Op::Child(a) => 0 <= a < nodes.len() <= usize::MAX,
        Op::Cancel(a) => 0 <= a < nodes.len(),
        Op::Register(a, last, waker) => 0 <= a < nodes.len(),
    }
}

/// The forest after several things happened to it, one after the other, from its making on.
pub open spec fn forest_after<W>(ops: Seq<Op<W>>) -> Seq<StateView<W>>
    decreases ops.len(),
{
    if ops.len() == 0 {
        Seq::empty()
    } else {
        after_op(forest_after(ops.drop_last()), ops.last())
    }
}

/// Whether these things can happen to a forest, one after the other.
pub open spec fn is_history<W>(ops: Seq<Op<W>>) -> bool
    decreases ops.len(),
{
    ops.len() == 0 || (is_history(ops.drop_last()) && can_happen(
        forest_after(ops.drop_last()),
        ops.last(),
    ))
}

/// Whether, among these things, a token was cancelled that is `d` or above it.
pub open spec fn was_cancelled<W>(ops: Seq<Op<W>>, shape: Seq<Seq<usize>>, d: int) -> bool {
    exists|k: int|
        0 <= k < ops.len() && (#[trigger] ops[k] matches Op::Cancel(a) && below(shape, a, d))
}

/// What is below what depends only on the older tokens.
proof fn lemma_below_same(old: Seq<Seq<usize>>, new: Seq<Seq<usize>>, a: int, d: int, n: int)
    requires
        d < n,
        n <= old.len(),
        n <= new.len(),
        forall|p: int, c: int|
            0 <= p < c < n ==> (#[trigger] is_child(old, p, c) <==> is_child(new, p, c)),
    ensures
        below(old, a, d) <==> below(new, a, d),
    decreases d,
{
    if a != d {
        if below(old, a, d) {
            let p = choose|p: int| 0 <= p < d && p < old.len() && #[trigger] is_child(old, p, d) && below(old, a, p);
            lemma_below_same(old, new, a, p, n);
            assert(is_child(new, p, d));
        }
        if below(new, a, d) {
            let p = choose|p: int| 0 <= p < d && p < new.len() && #[trigger] is_child(new, p, d) && below(new, a, p);
            lemma_below_same(old, new, a, p, n);
            assert(is_child(old, p, d));
        }
    }
}

/// Adding tokens does not change who is whose child among the older ones.
proof fn lemma_children_same<W>(nodes: Seq<StateView<W>>, after: Seq<StateView<W>>)
    requires
        nodes.len() <= after.len(),
        forall|p: int|
            0 <= p < nodes.len() ==> (#[trigger] after[p]).children == nodes[p].children || (
            after[p].children == nodes[p].children.push(nodes.len() as usize) && nodes.len()
                <= usize::MAX),
    ensures
        forall|p: int, c: int|
            0 <= p < c < nodes.len() ==> (#[trigger] is_child(shape(nodes), p, c) <==> is_child(
                shape(after),
                p,
                c,
            )),
{
    let old = shape(nodes);
    let new = shape(after);
    assert forall|p: int, c: int| 0 <= p < c < nodes.len() implies (#[trigger] is_child(old, p, c)
        <==> is_child(new, p, c)) by {
        assert(new[p] == after[p].children && old[p] == nodes[p].children);
        if is_child(old, p, c) {
            let i = choose|i: int| 0 <= i < old[p].len() && #[trigger] old[p][i] == c;
            assert(new[p][i] == c);
        }
        if is_child(new, p, c) {
            let i = choose|i: int| 0 <= i < new[p].len() && #[trigger] new[p][i] == c;
            assert(i < old[p].len());
            assert(old[p][i] == c);
        }
    }
}

proof fn lemma_history_valid<W>(ops: Seq<Op<W>>, k: int)
    requires
        is_history(ops),
    ensures
        valid_forest(forest_after(ops)),
        0 <= k < ops.len() ==> (ops[k] matches Op::Cancel(a) ==> 0 <= a < forest_after(ops).len()),
    decreases ops.len(),
{
    if ops.len() > 0 {
        let earlier = ops.drop_last();
        let before = forest_after(earlier);
        let after = forest_after(ops);
        lemma_history_valid(earlier, k);
        assert(0 <= k < earlier.len() ==> ops[k] == earlier[k]);
        match ops.last() {
            Op::New => lemma_grown_forest(before, after),
            Op::Child(a) => lemma_child_keeps_valid(before, a),
            Op::Cancel(a) => lemma_cancel_keeps_valid(before, a),
            Op::Register(a, last, waker) => {
                assert(shape(after) =~= shape(before));
                assert forall|p: int, i: int|
                    0 <= p < after.len() && after[p].is_cancelled && 0 <= i
                        < after[p].children.len() implies after[(#[trigger] after[p].children[i]) as int].is_cancelled by {
                    assert(shape(before)[p][i] == before[p].children[i]);
                }
            },
        }
    }
}

/// No token that was cancelled earlier is above a new one that hangs below none.
proof fn lemma_nothing_above_new<W>(earlier: Seq<Op<W>>, new: Seq<Seq<usize>>, n: int)
    requires
        is_history(earlier),
        n == forest_after(earlier).len(),
        new == shape(forest_after(earlier).push(StateView::fresh(false))),
    ensures
        !was_cancelled(earlier, new, n),
{
    let old = shape(forest_after(earlier));
    assert forall|k: int| 0 <= k < earlier.len() implies !(#[trigger] earlier[k] matches Op::Cancel(
        a,
    ) && below(new, a, n)) by {
        lemma_history_valid(earlier, k);
        if earlier[k] is Cancel {
            let a = earlier[k]->Cancel_0;
            if below(new, a, n) {
                let p = choose|p: int| 0 <= p < n && p < new.len() && #[trigger] is_child(new, p, n) && below(new, a, p);
                let i = choose|i: int| 0 <= i < new[p].len() && #[trigger] new[p][i] == n;
                assert(old[p][i] == n);
            }
        }
    }
}

/// What was cancelled earlier is above a new child exactly if it is above its parent.
proof fn lemma_cancelled_above_child<W>(
    earlier: Seq<Op<W>>,
    after: Seq<StateView<W>>,
    new: Seq<Seq<usize>>,
    p: int,
    n: int,
)
    requires
        is_history(earlier),
        n == forest_after(earlier).len() <= usize::MAX,
        0 <= p < n,
        after == with_child(forest_after(earlier), p),
        new == shape(after),
    ensures
        was_cancelled(earlier, new, n) <==> was_cancelled(earlier, new, p),
{
    let before = forest_after(earlier);
    lemma_history_valid(earlier, 0);
    lemma_child_keeps_valid(before, p);
    let last = before[p].children.len() as int;
    assert(new[p][last] == n);
    assert(is_child(new, p, n));
    if was_cancelled(earlier, new, p) {
        let k = choose|k: int|
            0 <= k < earlier.len() && (#[trigger] earlier[k] matches Op::Cancel(a) && below(
                new,
                a,
                p,
            ));
        assert(below(new, earlier[k]->Cancel_0, n));
    }
    if was_cancelled(earlier, new, n) {
        let k = choose|k: int|
            0 <= k < earlier.len() && (#[trigger] earlier[k] matches Op::Cancel(a) && below(
                new,
                a,
                n,
            ));
        let a = earlier[k]->Cancel_0;
        lemma_history_valid(earlier, k);
        let q = choose|q: int| 0 <= q < n && q < new.len() && #[trigger] is_child(new, q, n) && below(new, a, q);
        let i = choose|i: int| 0 <= i < new[q].len() && #[trigger] new[q][i] == n;
        assert(new[q][i] == new[p][last]);
        assert(q == p);
    }
}

/// A token is cancelled exactly if it or a token above it was, be it before or
/// after the token was made. Nothing else cancels a token.
pub proof fn law_cancelled_iff_cancel_was_called<W>(ops: Seq<Op<W>>, d: int)
    requires
        is_history(ops),
        0 <= d < forest_after(ops).len(),
    ensures
        forest_after(ops)[d].is_cancelled <==> was_cancelled(ops, shape(forest_after(ops)), d),
    decreases ops.len(),
{
    let earlier = ops.drop_last();
    let before = forest_after(earlier);
    let after = forest_after(ops);
    let old = shape(before);
    let new = shape(after);
    let n = before.len() as int;
    lemma_history_valid(earlier, 0);
    lemma_history_valid(ops, 0);
    assert forall|k: int| 0 <= k < earlier.len() implies #[trigger] ops[k] == earlier[k] by {}
    if d < n {
        law_cancelled_iff_cancel_was_called(earlier, d);
    }
    lemma_children_same(before, after);
    assert forall|a: int, c: int| c < n implies (#[trigger] below(old, a, c) <==> below(
        new,
        a,
        c,
    )) by {
        lemma_below_same(old, new, a, c, n);
    }
    // Whether `c` or a token above it was cancelled before the last thing happened.
    assert forall|c: int| c < n implies (#[trigger] was_cancelled(earlier, old, c)
        <==> was_cancelled(earlier, new, c)) by {
        if was_cancelled(earlier, old, c) {
            let k = choose|k: int|
                0 <= k < earlier.len() && (#[trigger] earlier[k] matches Op::Cancel(a) && below(
                    old,
                    a,
                    c,
                ));
            assert(below(new, earlier[k]->Cancel_0, c));
        }
        if was_cancelled(earlier, new, c) {
            let k = choose|k: int|
                0 <= k < earlier.len() && (#[trigger] earlier[k] matches Op::Cancel(a) && below(
                    new,
                    a,
                    c,
                ));
            assert(below(old, earlier[k]->Cancel_0, c));
        }
    }
    assert(was_cancelled(ops, new, d) <==> was_cancelled(earlier, new, d) || (
    ops.last() matches Op::Cancel(a) && below(new, a, d))) by {
        if was_cancelled(ops, new, d) {
            let k = choose|k: int|
                0 <= k < ops.len() && (#[trigger] ops[k] matches Op::Cancel(a) && below(new, a, d));
            if k < earlier.len() {
                assert(earlier[k] == ops[k]);
            }
        }
        if was_cancelled(earlier, new, d) {
            let k = choose|k: int|
                0 <= k < earlier.len() && (#[trigger] earlier[k] matches Op::Cancel(a) && below(
                    new,
                    a,
                    d,
                ));
            assert(ops[k] == earlier[k]);
        }
        assert(ops[ops.len() - 1] == ops.last());
    }
    match ops.last() {
        Op::New => {
            if d == n {
                assert(!was_cancelled(earlier, new, d)) by {
                    lemma_nothing_above_new(earlier, new, n);
                }
            }
        },
        Op::Child(p) => {
            if d == n {
                law_cancelled_iff_cancel_was_called(earlier, p);
                lemma_cancelled_above_child(earlier, after, new, p, n);
            }
        },
        Op::Cancel(a) => {
            assert(new =~= old);
        },
        Op::Register(a, last, waker) => {
            assert(new =~= old);
        },
    }
}

/// Nobody waits for a new token, so its state is tidy.
pub proof fn law_new_token_is_tidy<W>(is_cancelled: bool)
    ensures
        tidy(StateView::<W>::fresh(is_cancelled)),
{
}

/// Whether each token on the path is one that was made as a child of the one before.
pub open spec fn is_path<W>(nodes: Seq<StateView<W>>, path: Seq<int>) -> bool {
    &&& path.len() > 0
    &&& forall|i: int|
        0 <= i < path.len() - 1 ==> is_step(nodes, #[trigger] path[i], path[i + 1])
}

/// Whether the token `c` is among the children of `p`.
pub open spec fn is_step<W>(nodes: Seq<StateView<W>>, p: int, c: int) -> bool {
    &&& 0 <= p < nodes.len()
    &&& exists|i: int| 0 <= i < nodes[p].children.len() && #[trigger] nodes[p].children[i] == c
}

/// Whether a path leads from `a` to `d`.
pub open spec fn is_reachable<W>(nodes: Seq<StateView<W>>, a: int, d: int) -> bool {
    exists|path: Seq<int>| #[trigger] is_path(nodes, path) && path.first() == a && path.last() == d
}

proof fn lemma_step_is_child<W>(nodes: Seq<StateView<W>>, p: int, c: int)
    requires
        0 <= p < nodes.len(),
    ensures
        is_step(nodes, p, c) <==> is_child(shape(nodes), p, c),
{
    assert(shape(nodes)[p] == nodes[p].children);
    if is_step(nodes, p, c) {
        let i = choose|i: int|
            0 <= i < nodes[p].children.len() && #[trigger] nodes[p].children[i] == c;
        assert(shape(nodes)[p][i] == c);
    }
    if is_child(shape(nodes), p, c) {
        let i = choose|i: int|
            0 <= i < shape(nodes)[p].len() && #[trigger] shape(nodes)[p][i] == c;
        assert(nodes[p].children[i] == c);
    }
}

proof fn lemma_path_leads_below<W>(nodes: Seq<StateView<W>>, path: Seq<int>)
    requires
        valid_forest(nodes),
        is_path(nodes, path),
    ensures
        below(shape(nodes), path.first(), path.last()),
    decreases path.len(),
{
    if path.len() > 1 {
        let shorter = path.drop_last();
        assert forall|i: int| 0 <= i < shorter.len() - 1 implies is_step(
            nodes,
            #[trigger] shorter[i],
            shorter[i + 1],
        ) by {
            assert(path[i] == shorter[i] && path[i + 1] == shorter[i + 1]);
        }
        lemma_path_leads_below(nodes, shorter);
        let k = path.len() - 2;
        assert(is_step(nodes, path[k], path[k + 1]));
        lemma_step_is_child(nodes, path[k], path[k + 1]);
        let i = choose|i: int|
            0 <= i < shape(nodes)[path[k]].len() && #[trigger] shape(nodes)[path[k]][i] == path[k
                + 1];
        lemma_child_below(shape(nodes), path[k], i);
        lemma_below_trans(shape(nodes), path.first(), path[k], path[k + 1]);
    }
}

proof fn lemma_path_to_below<W>(nodes: Seq<StateView<W>>, a: int, d: int) -> (path: Seq<int>)
    requires
        valid_forest(nodes),
        below(shape(nodes), a, d),
    ensures
        is_path(nodes, path),
        path.first() == a,
        path.last() == d,
    decreases d,
{
    if a == d {
        seq![a]
    } else {
        let s = shape(nodes);
        let p = choose|p: int| 0 <= p < d && p < s.len() && #[trigger] is_child(s, p, d) && below(s, a, p);
        let shorter = lemma_path_to_below(nodes, a, p);
        let path = shorter.push(d);
        lemma_step_is_child(nodes, p, d);
        assert forall|i: int| 0 <= i < path.len() - 1 implies is_step(
            nodes,
            #[trigger] path[i],
            path[i + 1],
        ) by {
            if i < shorter.len() - 1 {
                assert(is_step(nodes, shorter[i], shorter[i + 1]));
            }
        }
        path
    }
}

/// Cancelling a token reaches it and every token to which a path of children leads
/// from it, however long, and no other.
pub proof fn law_below_is_reachable<W>(nodes: Seq<StateView<W>>, a: int, d: int)
    requires
        valid_forest(nodes),
    ensures
        below(shape(nodes), a, d) <==> is_reachable(nodes, a, d),
{
    if below(shape(nodes), a, d) {
        let path = lemma_path_to_below(nodes, a, d);
        assert(is_path(nodes, path));
    }
    if is_reachable(nodes, a, d) {
        let path = choose|path: Seq<int>| #[trigger]
            is_path(nodes, path) && path.first() == a && path.last() == d;
        lemma_path_leads_below(nodes, path);
    }
}

/// What cancelling does to a token: it is cancelled afterwards exactly if it was
/// before or can be reached. If it is cancelled by this, nobody waits for it any
/// more; otherwise it stays as it was. Who is whose child never changes.
pub proof fn law_cancel_changes_what_it_reaches<W>(nodes: Seq<StateView<W>>, a: int, d: int)
    requires
        valid_forest(nodes),
        0 <= a < nodes.len(),
        0 <= d < nodes.len(),
    ensures
        after_cancel(nodes, a).len() == nodes.len(),
        after_cancel(nodes, a)[d].is_cancelled <==> nodes[d].is_cancelled || is_reachable(
            nodes,
            a,
            d,
        ),
        after_cancel(nodes, a)[d].children == nodes[d].children,
        after_cancel(nodes, a)[d].next_generation == nodes[d].next_generation,
        after_cancel(nodes, a)[d].is_cancelled != nodes[d].is_cancelled ==> after_cancel(
            nodes,
            a,
        )[d].waiters.len() == 0,
        after_cancel(nodes, a)[d].is_cancelled == nodes[d].is_cancelled ==> after_cancel(
            nodes,
            a,
        )[d] == nodes[d],
{
    law_below_is_reachable(nodes, a, d);
}

/// Wakers are handed out token by token: those of the first tokens, then those of
/// the others. Of each token that is not cancelled yet, all are handed out, each
/// once, in the order in which they were registered, and of one that is, none.
pub proof fn law_wakers_are_handed_out_token_by_token<W>(
    nodes: Seq<StateView<W>>,
    first: Seq<int>,
    others: Seq<int>,
    d: int,
    i: int,
)
    ensures
        pending(nodes, first + others) == pending(nodes, first) + pending(nodes, others),
        pending(nodes, Seq::<int>::empty()).len() == 0,
        nodes[d].is_cancelled ==> pending(nodes, seq![d]).len() == 0,
        !nodes[d].is_cancelled ==> {
            &&& pending(nodes, seq![d]).len() == nodes[d].waiters.len()
            &&& 0 <= i < nodes[d].waiters.len() ==> pending(nodes, seq![d])[i]
                == nodes[d].waiters[i].waker
        },
{
    lemma_pending_concat(nodes, first, others);
    assert(seq![d].drop_last() =~= Seq::<int>::empty());
    reveal_with_fuel(pending, 2);
}

/// Whether `x` and all that hangs below it comes before `y`: `y` hangs below `x`, or
/// below a younger sibling of `x` or of a token above `x`.
pub open spec fn comes_before(shape: Seq<Seq<usize>>, x: int, y: int) -> bool {
    ||| x != y && below(shape, x, y)
    ||| exists|p: int, i: int, j: int| #[trigger] is_left_of(shape, p, i, j, x, y)
}

/// Whether `x` hangs below the child `i` of `p`, and `y` below the younger child `j`.
pub open spec fn is_left_of(
    shape: Seq<Seq<usize>>,
    p: int,
    i: int,
    j: int,
    x: int,
    y: int,
) -> bool {
    &&& 0 <= p < shape.len()
    &&& 0 <= i < j < shape[p].len()
    &&& below(shape, shape[p][i] as int, x)
    &&& below(shape, shape[p][j] as int, y)
}

/// Tokens below two children of `a` come in the order of these children.
proof fn lemma_children_in_order(
    shape: Seq<Seq<usize>>,
    a: int,
    k: int,
    n: int,
    x: int,
    y: int,
)
    requires
        is_forest(shape),
        0 <= a < shape.len(),
        0 <= k < n < shape[a].len(),
        below(shape, shape[a][k] as int, x),
        below(shape, shape[a][n] as int, y),
    ensures
        !comes_before(shape, y, x),
{
    if below(shape, y, x) {
        lemma_below_trans(shape, shape[a][n] as int, y, x);
        lemma_siblings_disjoint(shape, a, k, n, x);
    }
    assert forall|p: int, i: int, j: int| !(#[trigger] is_left_of(shape, p, i, j, y, x)) by {
        if is_left_of(shape, p, i, j, y, x) {
            lemma_child_below(shape, p, i);
            lemma_child_below(shape, p, j);
            lemma_child_below(shape, a, k);
            lemma_child_below(shape, a, n);
            lemma_below_trans(shape, p, shape[p][j] as int, x);
            lemma_below_trans(shape, p, shape[p][i] as int, y);
            lemma_below_trans(shape, a, shape[a][k] as int, x);
            lemma_below_trans(shape, a, shape[a][n] as int, y);
            if p == a {
                lemma_siblings_disjoint(shape, a, k, j, x);
                lemma_siblings_disjoint(shape, a, n, i, y);
            } else if p < a {
                lemma_below_chain(shape, p, a, x);
                let m = lemma_below_first_step(shape, p, a);
                lemma_below_trans(shape, shape[p][m] as int, a, x);
                lemma_below_trans(shape, shape[p][m] as int, a, y);
                lemma_siblings_disjoint(shape, p, m, j, x);
                lemma_siblings_disjoint(shape, p, m, i, y);
            } else {
                lemma_below_chain(shape, a, p, x);
                let m = lemma_below_first_step(shape, a, p);
                lemma_below_trans(shape, shape[a][m] as int, p, x);
                lemma_below_trans(shape, shape[a][m] as int, p, y);
                lemma_siblings_disjoint(shape, a, m, k, x);
                lemma_siblings_disjoint(shape, a, m, n, y);
            }
        }
    }
}

/// Nothing below a token comes before the token.
proof fn lemma_token_in_order(shape: Seq<Seq<usize>>, a: int, y: int)
    requires
        is_forest(shape),
        0 <= a < shape.len(),
        below(shape, a, y),
    ensures
        a != y ==> !comes_before(shape, y, a),
{
    if a != y {
        lemma_below_older(shape, a, y);
        if below(shape, y, a) {
            lemma_below_older(shape, y, a);
        }
        assert forall|p: int, i: int, j: int| !(#[trigger] is_left_of(shape, p, i, j, y, a)) by {
            if is_left_of(shape, p, i, j, y, a) {
                lemma_below_trans(shape, shape[p][j] as int, a, y);
                lemma_siblings_disjoint(shape, p, i, j, y);
            }
        }
    }
}

proof fn lemma_preorder_in_order(shape: Seq<Seq<usize>>, a: int)
    requires
        is_forest(shape),
        0 <= a < shape.len(),
    ensures
        forall|i: int, j: int|
            0 <= i < j < preorder(shape, a).len() ==> !comes_before(
                shape,
                #[trigger] preorder(shape, a)[j],
                #[trigger] preorder(shape, a)[i],
            ),
    decreases shape.len() - a, shape[a].len() + 1,
{
    let n = shape[a].len();
    let rest = preorders(shape, a, n);
    let all = preorder(shape, a);
    lemma_preorders_in_order(shape, a, n);
    lemma_preorders_below(shape, a, n);
    lemma_preorder_distinct(shape, a);
    assert forall|i: int, j: int| 0 <= i < j < all.len() implies !comes_before(
        shape,
        #[trigger] all[j],
        #[trigger] all[i],
    ) by {
        assert(all[j] == rest[j - 1]);
        if i > 0 {
            assert(all[i] == rest[i - 1]);
        } else {
            assert(all[0] == a);
            lemma_token_in_order(shape, a, all[j]);
        }
    }
}

proof fn lemma_preorders_in_order(shape: Seq<Seq<usize>>, a: int, n: nat)
    requires
        is_forest(shape),
        0 <= a < shape.len(),
        n <= shape[a].len(),
    ensures
        forall|i: int, j: int|
            0 <= i < j < preorders(shape, a, n).len() ==> !comes_before(
                shape,
                #[trigger] preorders(shape, a, n)[j],
                #[trigger] preorders(shape, a, n)[i],
            ),
    decreases shape.len() - a, n,
{
    if n > 0 {
        let c = shape[a][n - 1] as int;
        let earlier = preorders(shape, a, (n - 1) as nat);
        let last = preorder(shape, c);
        let all = preorders(shape, a, n);
        lemma_preorders_in_order(shape, a, (n - 1) as nat);
        lemma_child_below(shape, a, n - 1);
        lemma_preorder_in_order(shape, c);
        lemma_preorder_below(shape, c);
        assert forall|i: int, j: int| 0 <= i < j < all.len() implies !comes_before(
            shape,
            #[trigger] all[j],
            #[trigger] all[i],
        ) by {
            if j < earlier.len() {
                assert(all[i] == earlier[i] && all[j] == earlier[j]);
            } else if i >= earlier.len() {
                assert(all[i] == last[i - earlier.len()] && all[j] == last[j - earlier.len()]);
            } else {
                assert(all[i] == earlier[i] && all[j] == last[j - earlier.len()]);
                assert(earlier.contains(all[i]));
                lemma_preorders_from_child(shape, a, (n - 1) as nat, all[i]);
                let k = choose|k: int|
                    0 <= k < n - 1 && below(shape, #[trigger] shape[a][k] as int, all[i]);
                lemma_children_in_order(shape, a, k, n - 1, all[i], all[j]);
            }
        }
    }
}

/// In which order tokens are cancelled: a token before those below it, and of two
/// children of one token, the older one and all that hangs below it first.
pub proof fn law_tokens_are_cancelled_in_order<W>(
    nodes: Seq<StateView<W>>,
    a: int,
    i: int,
    j: int,
)
    requires
        valid_forest(nodes),
        0 <= a < nodes.len(),
    ensures
        preorder(shape(nodes), a).len() > 0,
        preorder(shape(nodes), a)[0] == a,
        0 <= i < j < preorder(shape(nodes), a).len() ==> !comes_before(
            shape(nodes),
            preorder(shape(nodes), a)[j],
            preorder(shape(nodes), a)[i],
        ),
{
    lemma_preorder_in_order(shape(nodes), a);
}

/// Making a token adds one token, which nobody waits for and nothing hangs below.
/// A child is added behind its siblings. All other tokens stay as they were.
pub proof fn law_making_tokens_changes_nothing_else<W>(
    nodes: Seq<StateView<W>>,
    a: int,
    d: int,
)
    requires
        0 <= a < nodes.len() <= usize::MAX,
        0 <= d < nodes.len(),
    ensures
        with_child(nodes, a).len() == nodes.len() + 1,
        with_child(nodes, a).last().is_cancelled == nodes[a].is_cancelled,
        with_child(nodes, a).last().children.len() == 0,
        with_child(nodes, a).last().waiters.len() == 0,
        with_child(nodes, a).last().next_generation == 0,
        d != a ==> with_child(nodes, a)[d] == nodes[d],
        with_child(nodes, a)[a].children.drop_last() == nodes[a].children,
        with_child(nodes, a)[a].children.last() == nodes.len(),
        with_child(nodes, a)[a].is_cancelled == nodes[a].is_cancelled,
        with_child(nodes, a)[a].waiters == nodes[a].waiters,
        with_child(nodes, a)[a].next_generation == nodes[a].next_generation,
        !StateView::<W>::fresh(false).is_cancelled,
        StateView::<W>::fresh(true).is_cancelled,
        StateView::<W>::fresh(false).children.len() == 0,
        StateView::<W>::fresh(false).waiters.len() == 0,
        StateView::<W>::fresh(false).next_generation == 0,
{
    assert(with_child(nodes, a)[a].children.drop_last() =~= nodes[a].children);
}

/// Cleaning up deletes every registration of the stale number, and nothing else.
pub proof fn law_cleanup_deletes_only_what_is_stale<W>(
    state: StateView<W>,
    stale: usize,
    waiter: OrdWaker<W>,
)
    ensures
        state.cleaned(Some(stale)).waiters.contains(waiter) <==> state.waiters.contains(waiter)
            && waiter.token != stale,
        state.cleaned(Some(stale)).children == state.children,
        state.cleaned(Some(stale)).is_cancelled == state.is_cancelled,
        state.cleaned(Some(stale)).next_generation == state.next_generation,
        state.cleaned(None) == state,
{
    lemma_others_member(state.waiters, stale, 0);
    let kept = others(state.waiters, stale);
    if state.waiters.contains(waiter) && waiter.token != stale {
        let k = state.waiters.index_of(waiter);
        lemma_others_member(state.waiters, stale, k);
    }
    if kept.contains(waiter) {
        let k = kept.index_of(waiter);
        assert(kept[k] == waiter);
    }
}

proof fn lemma_others_is_remove<W>(waiters: Seq<OrdWaker<W>>, k: int)
    requires
        numbers(waiters).no_duplicates(),
        0 <= k < waiters.len(),
    ensures
        others(waiters, waiters[k].token) == waiters.remove(k),
    decreases waiters.len(),
{
    reveal(Seq::filter);
    let token = waiters[k].token;
    let shorter = waiters.drop_last();
    let end = waiters.len() - 1;
    assert(numbers(shorter) =~= numbers(waiters).drop_last());
    assert(numbers(waiters)[k] == token);
    assert(numbers(waiters)[end] == waiters[end].token);
    if k == end {
        assert forall|i: int| 0 <= i < shorter.len() implies (#[trigger] shorter[i]).token
            != token by {
            assert(numbers(waiters)[i] == shorter[i].token);
        }
        lemma_others_is_all(shorter, token);
        assert(waiters.remove(k) =~= shorter);
    } else {
        assert(shorter[k] == waiters[k]);
        lemma_others_is_remove(shorter, k);
        assert(waiters.remove(k) =~= shorter.remove(k).push(waiters[end]));
    }
}

proof fn lemma_others_is_all<W>(waiters: Seq<OrdWaker<W>>, token: usize)
    requires
        forall|i: int| 0 <= i < waiters.len() ==> (#[trigger] waiters[i]).token != token,
    ensures
        others(waiters, token) == waiters,
    decreases waiters.len(),
{
    reveal(Seq::filter);
    if waiters.len() > 0 {
        let shorter = waiters.drop_last();
        assert forall|i: int| 0 <= i < shorter.len() implies (#[trigger] shorter[i]).token
            != token by {
            assert(shorter[i] == waiters[i]);
        }
        lemma_others_is_all(shorter, token);
        assert(waiters[waiters.len() - 1].token != token);
        assert(shorter.push(waiters.last()) =~= waiters);
    }
}

/// Registering a waker puts it behind all others, under a number that was never
/// used, and takes away exactly the registration that it replaces. The others keep
/// their order, and nothing else changes.
pub proof fn law_registering_is_exact<W>(
    state: StateView<W>,
    last: Option<OrdWaker<W>>,
    waker: W,
    k: int,
)
    requires
        tidy(state),
        state.next_generation < usize::MAX,
    ensures
        last is None ==> registered(state, last, waker).waiters == state.waiters.push(
            OrdWaker { waker, token: state.next_generation as usize },
        ),
        last matches Some(l) ==> (0 <= k < state.waiters.len() && state.waiters[k].token == l.token
            ==> registered(state, last, waker).waiters == state.waiters.remove(k).push(
            OrdWaker { waker, token: state.next_generation as usize },
        )),
        registered(state, last, waker).next_generation == state.next_generation + 1,
        registered(state, last, waker).children == state.children,
        registered(state, last, waker).is_cancelled == state.is_cancelled,
{
    if let Some(l) = last {
        if 0 <= k < state.waiters.len() && state.waiters[k].token == l.token {
            lemma_others_is_remove(state.waiters, k);
        }
    }
}

/// A poll changes nothing if the token is cancelled, or if the waker used last is
/// good for this poll too. Otherwise a clone of the waker is registered with the
/// future's token, under the number that the future remembers. Other tokens are not
/// touched, and the future goes on waiting for the same token.
pub proof fn law_poll_registers_if_needed<W: Clone>(
    future: WaitForCancellationFuture<W>,
    nodes: Seq<StateView<W>>,
    waker: W,
    same: bool,
    new_future: WaitForCancellationFuture<W>,
    new_nodes: Seq<StateView<W>>,
    d: int,
)
    requires
        0 <= future.token()@ < nodes.len(),
        polls(future, nodes, waker, same, new_future, new_nodes),
        nodes[future.token()@].next_generation < usize::MAX,
    ensures
        new_future.token() == future.token(),
        new_nodes.len() == nodes.len(),
        0 <= d < nodes.len() && d != future.token()@ ==> new_nodes[d] == nodes[d],
        nodes[future.token()@].is_cancelled || (future.last_used() is Some && same)
            ==> new_future == future && new_nodes == nodes,
        !nodes[future.token()@].is_cancelled && !(future.last_used() is Some && same) ==> {
            let waiters = new_nodes[future.token()@].waiters;
            &&& waiters.len() > 0
            &&& cloned(waker, waiters.last().waker)
            &&& waiters.last().token == nodes[future.token()@].next_generation
            &&& new_future.last_used() is Some
            &&& new_future.last_used()->0.token == waiters.last().token
            &&& cloned(waiters.last().waker, new_future.last_used()->0.waker)
        },
{
}

} // verus!
