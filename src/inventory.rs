use vstd::prelude::*;
use vstd::string::StringExecFns;

verus! {

/// What the proofs see of one cart line during a resolution pass.
pub struct LineState {
    pub id: Seq<char>,
    pub variant: Seq<char>,
    pub remaining: nat,
}

/// One row of the cart snapshot.
#[derive(Clone, Debug, PartialEq, Eq)]
pub struct CartLine {
    pub id: String,
    pub variant_id: String,
    pub quantity: u64,
}

impl View for CartLine {
    type V = LineState;

    open spec fn view(&self) -> LineState {
        LineState { id: self.id@, variant: self.variant_id@, remaining: self.quantity as nat }
    }
}

#[derive(Clone, Copy, Debug, PartialEq, Eq, Structural)]
pub enum InventoryError {
    /// No line of the inventory carries the given id.
    UnknownLine,
    /// The line exists but holds less than the quantity asked for.
    InsufficientQuantity,
}

/// Index of the first line that satisfies `p`, or -1 when none does.
pub open spec fn first_index(s: Seq<LineState>, p: spec_fn(LineState) -> bool) -> int
    decreases s.len(),
{
    if s.len() == 0 {
        -1
    } else {
        let k = first_index(s.drop_last(), p);
        if k >= 0 {
            k
        } else if p(s.last()) {
            s.len() - 1
        } else {
            -1
        }
    }
}

pub open spec fn has_id(id: Seq<char>) -> spec_fn(LineState) -> bool {
    |l: LineState| l.id == id
}

/// Position of the line that an id names: the first line carrying it.
pub open spec fn index_of(s: Seq<LineState>, id: Seq<char>) -> int {
    first_index(s, has_id(id))
}

pub open spec fn remaining_of(s: Seq<LineState>, id: Seq<char>) -> Option<nat> {
    let i = index_of(s, id);
    if i < 0 {
        None
    } else {
        Some(s[i].remaining)
    }
}

/// The lines with `q` units taken from line `i`.
pub open spec fn deduct(s: Seq<LineState>, i: int, q: nat) -> Seq<LineState> {
    s.update(i, LineState { remaining: (s[i].remaining - q) as nat, ..s[i] })
}

/// Outcome of one `consume` call on the lines `s`.
pub open spec fn consume_spec(s: Seq<LineState>, id: Seq<char>, q: nat) -> Result<
    Seq<LineState>,
    InventoryError,
> {
    let i = index_of(s, id);
    if i < 0 {
        Err(InventoryError::UnknownLine)
    } else if q > s[i].remaining {
        Err(InventoryError::InsufficientQuantity)
    } else {
        Ok(deduct(s, i, q))
    }
}

/// The lines whose remaining quantity is positive, in their order.
pub open spec fn active(s: Seq<LineState>) -> Seq<LineState>
    decreases s.len(),
{
    if s.len() == 0 {
        Seq::empty()
    } else if s.last().remaining > 0 {
        active(s.drop_last()).push(s.last())
    } else {
        active(s.drop_last())
    }
}

pub open spec fn same_lines(s: Seq<LineState>, t: Seq<LineState>) -> bool {
    &&& s.len() == t.len()
    &&& forall|i: int|
        #![trigger s[i]]
        #![trigger t[i]]
        0 <= i < s.len() ==> s[i].id == t[i].id && s[i].variant == t[i].variant
}

/// `first_index` is the first position satisfying `p`, or -1 when there is none.
pub proof fn lemma_first_index(s: Seq<LineState>, p: spec_fn(LineState) -> bool)
    ensures
        -1 <= first_index(s, p) < s.len(),
        first_index(s, p) >= 0 ==> p(s[first_index(s, p)]),
        forall|j: int| 0 <= j < s.len() && (first_index(s, p) < 0 || j < first_index(s, p)) ==> !p(
            #[trigger] s[j],
        ),
    decreases s.len(),
{
    if s.len() > 0 {
        lemma_first_index(s.drop_last(), p);
        assert(forall|j: int| 0 <= j < s.len() - 1 ==> s.drop_last()[j] == s[j]);
    }
}

/// A position that satisfies `p` and has none before it is `first_index`.
pub proof fn lemma_first_index_is(s: Seq<LineState>, p: spec_fn(LineState) -> bool, i: int)
    requires
        0 <= i < s.len(),
        p(s[i]),
        forall|j: int| 0 <= j < i ==> !p(#[trigger] s[j]),
    ensures
        first_index(s, p) == i,
{
    lemma_first_index(s, p);
}

/// No position satisfies `p`, so `first_index` is -1.
pub proof fn lemma_first_index_none(s: Seq<LineState>, p: spec_fn(LineState) -> bool)
    requires
        forall|j: int| 0 <= j < s.len() ==> !p(#[trigger] s[j]),
    ensures
        first_index(s, p) == -1,
{
    lemma_first_index(s, p);
}

/// Lines with the same ids are looked up alike.
pub proof fn lemma_index_of_same_lines(s: Seq<LineState>, t: Seq<LineState>, id: Seq<char>)
    requires
        same_lines(s, t),
    ensures
        index_of(s, id) == index_of(t, id),
{
    lemma_first_index(s, has_id(id));
    lemma_first_index(t, has_id(id));
    let a = index_of(s, id);
    let b = index_of(t, id);
    if a >= 0 && b >= 0 {
        assert(s[a].id == t[a].id);
        assert(s[b].id == t[b].id);
    } else if a >= 0 {
        assert(s[a].id == t[a].id);
    } else if b >= 0 {
        assert(s[b].id == t[b].id);
    }
}

/// One `consume` call: a line id and a quantity.
pub struct Consumption {
    pub line: Seq<char>,
    pub quantity: nat,
}

/// Outcome of `consume` calls made in turn; the first failure ends the sequence.
pub open spec fn consume_all(s: Seq<LineState>, calls: Seq<Consumption>) -> Result<
    Seq<LineState>,
    InventoryError,
>
    decreases calls.len(),
{
    if calls.len() == 0 {
        Ok(s)
    } else {
        match consume_all(s, calls.drop_last()) {
            Ok(t) => consume_spec(t, calls.last().line, calls.last().quantity),
            Err(e) => Err(e),
        }
    }
}

/// Sum of the quantities that `calls` take from the line `id`.
pub open spec fn total(calls: Seq<Consumption>, id: Seq<char>) -> nat
    decreases calls.len(),
{
    if calls.len() == 0 {
        0
    } else if calls.last().line == id {
        total(calls.drop_last(), id) + calls.last().quantity
    } else {
        total(calls.drop_last(), id)
    }
}

/// Each line named by its id, less everything that `calls` take from it.
pub open spec fn after_total(s: Seq<LineState>, calls: Seq<Consumption>) -> Seq<LineState> {
    Seq::new(
        s.len(),
        |i: int|
            if index_of(s, s[i].id) == i {
                LineState { remaining: (s[i].remaining - total(calls, s[i].id)) as nat, ..s[i] }
            } else {
                s[i]
            },
    )
}

/// The calls name existing lines and take from no line more than it holds.
pub open spec fn calls_fit(s: Seq<LineState>, calls: Seq<Consumption>) -> bool {
    &&& forall|k: int| 0 <= k < calls.len() ==> index_of(s, #[trigger] calls[k].line) >= 0
    &&& forall|k: int|
        0 <= k < calls.len() ==> total(calls, #[trigger] calls[k].line) <= s[index_of(
            s,
            calls[k].line,
        )].remaining
}

proof fn lemma_total_prefix(calls: Seq<Consumption>, id: Seq<char>)
    requires
        calls.len() > 0,
    ensures
        total(calls.drop_last(), id) <= total(calls, id),
{
}

/// Consumption adds up: calls that fit all succeed, and every line ends at its
/// initial quantity less the sum taken from it, whatever the order of the calls.
pub proof fn lemma_consumption_adds_up(s: Seq<LineState>, calls: Seq<Consumption>)
    requires
        calls_fit(s, calls),
    ensures
        consume_all(s, calls) == Ok::<Seq<LineState>, InventoryError>(after_total(s, calls)),
    decreases calls.len(),
{
    if calls.len() == 0 {
        assert forall|i: int| 0 <= i < s.len() implies after_total(s, calls)[i] == s[i] by {}
        assert(after_total(s, calls) =~= s);
    } else {
        let d = calls.drop_last();
        let c = calls.last();
        assert forall|k: int| 0 <= k < d.len() implies index_of(s, #[trigger] d[k].line) >= 0
            && total(d, d[k].line) <= s[index_of(s, d[k].line)].remaining by {
            assert(d[k] == calls[k]);
            lemma_total_prefix(calls, d[k].line);
        }
        lemma_consumption_adds_up(s, d);
        let t = after_total(s, d);
        assert(same_lines(s, t));
        lemma_index_of_same_lines(s, t, c.line);
        assert(calls[calls.len() - 1] == c);
        let i = index_of(s, c.line);
        lemma_first_index(s, has_id(c.line));
        let u = deduct(t, i, c.quantity);
        assert(consume_spec(t, c.line, c.quantity) == Ok::<Seq<LineState>, InventoryError>(u));
        assert forall|j: int| 0 <= j < s.len() implies u[j] == after_total(s, calls)[j] by {
            if j != i && index_of(s, s[j].id) == j {
                assert(s[j].id != c.line);
            }
        }
        assert(u =~= after_total(s, calls));
    }
}

/// What one call takes from the line `id`.
pub open spec fn share(c: Consumption, id: Seq<char>) -> nat {
    if c.line == id {
        c.quantity
    } else {
        0
    }
}

proof fn lemma_total_remove(calls: Seq<Consumption>, k: int, id: Seq<char>)
    requires
        0 <= k < calls.len(),
    ensures
        total(calls, id) == total(calls.remove(k), id) + share(calls[k], id),
    decreases calls.len(),
{
    if k == calls.len() - 1 {
        assert(calls.remove(k) =~= calls.drop_last());
    } else {
        assert(calls.remove(k).drop_last() =~= calls.drop_last().remove(k));
        assert(calls.remove(k).last() == calls.last());
        lemma_total_remove(calls.drop_last(), k, id);
    }
}

proof fn lemma_total_permutation(c1: Seq<Consumption>, c2: Seq<Consumption>, id: Seq<char>)
    requires
        c1.to_multiset() == c2.to_multiset(),
    ensures
        total(c1, id) == total(c2, id),
    decreases c1.len(),
{
    broadcast use vstd::seq_lib::group_to_multiset_ensures;

    if c1.len() == 0 {
        vstd::seq_lib::to_multiset_len(c1);
        vstd::seq_lib::to_multiset_len(c2);
    } else {
        let x = c1.last();
        let d = c1.drop_last();
        assert(d.push(x) =~= c1);
        assert(c1.to_multiset().count(x) > 0);
        assert(c2.contains(x));
        let k = choose|k: int| 0 <= k < c2.len() && c2[k] == x;
        assert(c2.remove(k).to_multiset() == c2.to_multiset().remove(x));
        assert(d.to_multiset() =~= c1.to_multiset().remove(x));
        lemma_total_permutation(d, c2.remove(k), id);
        lemma_total_remove(c2, k, id);
    }
}

/// The order of the calls does not matter: calls that fit, made in any other order,
/// all succeed as well and leave the same lines.
pub proof fn lemma_consumption_order_free(
    s: Seq<LineState>,
    c1: Seq<Consumption>,
    c2: Seq<Consumption>,
)
    requires
        calls_fit(s, c1),
        c1.to_multiset() == c2.to_multiset(),
    ensures
        consume_all(s, c2) == consume_all(s, c1),
        consume_all(s, c1) is Ok,
{
    broadcast use vstd::seq_lib::group_to_multiset_ensures;

    assert forall|k: int| 0 <= k < c2.len() implies index_of(s, #[trigger] c2[k].line) >= 0
        && total(c2, c2[k].line) <= s[index_of(s, c2[k].line)].remaining by {
        let x = c2[k];
        assert(c2.to_multiset().count(x) > 0);
        assert(c1.contains(x));
        let j = choose|j: int| 0 <= j < c1.len() && c1[j] == x;
        assert(c1[j].line == x.line);
        lemma_total_permutation(c1, c2, x.line);
    }
    lemma_consumption_adds_up(s, c1);
    lemma_consumption_adds_up(s, c2);
    assert forall|i: int| 0 <= i < s.len() implies after_total(s, c1)[i] == after_total(s, c2)[i] by {
        lemma_total_permutation(c1, c2, s[i].id);
    }
    assert(after_total(s, c1) =~= after_total(s, c2));
}

/// The mutable record of how much of each cart line is still unclaimed.
pub struct Inventory {
    ids: Vec<String>,
    variants: Vec<String>,
    remaining: Vec<u64>,
}

impl View for Inventory {
    type V = Seq<LineState>;

    closed spec fn view(&self) -> Seq<LineState> {
        Seq::new(
            self.ids.len() as nat,
            |i: int|
                LineState {
                    id: self.ids@[i]@,
                    variant: self.variants@[i]@,
                    remaining: self.remaining@[i] as nat,
                },
        )
    }
}

impl Inventory {
    pub closed spec fn wf(&self) -> bool {
        &&& self.variants.len() == self.ids.len()
        &&& self.remaining.len() == self.ids.len()
    }

    /// Builds the inventory of a snapshot: one line per cart line, in order.
    pub fn new(lines: &Vec<CartLine>) -> (r: Inventory)
        ensures
            r.wf(),
            r@ == lines@.map_values(|l: CartLine| l@),
    {
        let mut ids: Vec<String> = Vec::new();
        let mut variants: Vec<String> = Vec::new();
        let mut remaining: Vec<u64> = Vec::new();
        let mut i: usize = 0;
        while i < lines.len()
            invariant
                i <= lines.len(),
                ids.len() == i,
                variants.len() == i,
                remaining.len() == i,
                forall|j: int| 0 <= j < i ==> #[trigger] ids@[j]@ == lines@[j].id@,
                forall|j: int| 0 <= j < i ==> #[trigger] variants@[j]@ == lines@[j].variant_id@,
                forall|j: int| 0 <= j < i ==> #[trigger] remaining@[j] == lines@[j].quantity,
            decreases lines.len() - i,
        {
            ids.push(lines[i].id.clone());
            variants.push(lines[i].variant_id.clone());
            remaining.push(lines[i].quantity);
            i = i + 1;
        }
        let r = Inventory { ids, variants, remaining };
        assert(r@ =~= lines@.map_values(|l: CartLine| l@));
        r
    }

    pub fn len(&self) -> (r: usize)
        requires
            self.wf(),
        ensures
            r == self@.len(),
    {
        self.ids.len()
    }

    pub fn line_id(&self, i: usize) -> (r: String)
        requires
            self.wf(),
            i < self@.len(),
        ensures
            r@ == self@[i as int].id,
    {
        self.ids[i].clone()
    }

    pub fn variant_at(&self, i: usize) -> (r: &String)
        requires
            self.wf(),
            i < self@.len(),
        ensures
            r@ == self@[i as int].variant,
    {
        &self.variants[i]
    }

    pub fn remaining_at(&self, i: usize) -> (r: u64)
        requires
            self.wf(),
            i < self@.len(),
        ensures
            r == self@[i as int].remaining,
    {
        self.remaining[i]
    }

    /// Position of the line with the given id, if there is one.
    pub fn find(&self, line_id: &str) -> (r: Option<usize>)
        requires
            self.wf(),
        ensures
            match r {
                Some(i) => i < self@.len() && i == index_of(self@, line_id@),
                None => index_of(self@, line_id@) < 0,
            },
    {
        let key = String::from_str(line_id);
        let mut i: usize = 0;
        while i < self.ids.len()
            invariant
                self.wf(),
                key@ == line_id@,
                i <= self@.len(),
                forall|j: int| 0 <= j < i ==> !has_id(line_id@)(#[trigger] self@[j]),
            decreases self@.len() - i,
        {
            if self.ids[i] == key {
                proof {
                    lemma_first_index_is(self@, has_id(line_id@), i as int);
                }
                return Some(i);
            }
            i = i + 1;
        }
        proof {
            lemma_first_index_none(self@, has_id(line_id@));
        }
        None
    }

    /// Quantity still unclaimed on the line with the given id.
    pub fn remaining(&self, line_id: &str) -> (r: Option<u64>)
        requires
            self.wf(),
        ensures
            match r {
                Some(q) => remaining_of(self@, line_id@) == Some(q as nat),
                None => remaining_of(self@, line_id@) is None,
            },
    {
        match self.find(line_id) {
            Some(i) => Some(self.remaining[i]),
            None => None,
        }
    }

    /// Takes `quantity` units from the line at position `i`.
    pub fn consume_at(&mut self, i: usize, quantity: u64)
        requires
            old(self).wf(),
            i < old(self)@.len(),
            quantity <= old(self)@[i as int].remaining,
        ensures
            final(self).wf(),
            final(self)@ == deduct(old(self)@, i as int, quantity as nat),
    {
        let left = self.remaining[i] - quantity;
        self.remaining.set(i, left);
        assert(self@ =~= deduct(old(self)@, i as int, quantity as nat));
    }

    /// Takes `quantity` units from the line with the given id; on failure nothing changes.
    pub fn consume(&mut self, line_id: &str, quantity: u64) -> (r: Result<(), InventoryError>)
        requires
            old(self).wf(),
        ensures
            final(self).wf(),
            match consume_spec(old(self)@, line_id@, quantity as nat) {
                Ok(s) => r is Ok && final(self)@ == s,
                Err(e) => r == Err::<(), InventoryError>(e) && final(self)@ == old(self)@,
            },
    {
        match self.find(line_id) {
            None => Err(InventoryError::UnknownLine),
            Some(i) => {
                if quantity > self.remaining[i] {
                    Err(InventoryError::InsufficientQuantity)
                } else {
                    self.consume_at(i, quantity);
                    Ok(())
                }
            },
        }
    }

    /// The lines that still hold some quantity, with their remaining quantity.
    pub fn active_lines(&self) -> (r: Vec<CartLine>)
        requires
            self.wf(),
        ensures
            r@.map_values(|l: CartLine| l@) == active(self@),
    {
        let mut r: Vec<CartLine> = Vec::new();
        let mut i: usize = 0;
        while i < self.ids.len()
            invariant
                self.wf(),
                i <= self@.len(),
                r@.map_values(|l: CartLine| l@) == active(self@.take(i as int)),
            decreases self@.len() - i,
        {
            assert(self@.take(i + 1).drop_last() =~= self@.take(i as int));
            if self.remaining[i] > 0 {
                let line = CartLine {
                    id: self.ids[i].clone(),
                    variant_id: self.variants[i].clone(),
                    quantity: self.remaining[i],
                };
                r.push(line);
                assert(r@.map_values(|l: CartLine| l@) =~= active(self@.take(i as int)).push(
                    self@[i as int],
                ));
            }
            i = i + 1;
        }
        assert(self@.take(self@.len() as int) =~= self@);
        r
    }
}

} // verus!
