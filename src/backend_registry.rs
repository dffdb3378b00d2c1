use vstd::prelude::*;

verus! {

use vstd::arithmetic::div_mod::{
    lemma_add_mod_noop,
    lemma_basic_div,
    lemma_div_is_ordered,
    lemma_div_pos_is_pos,
    lemma_fundamental_div_mod,
    lemma_hoist_over_denominator,
    lemma_mod_bound,
    lemma_mod_equivalence,
    lemma_mod_multiples_vanish,
    lemma_mod_twice,
    lemma_small_mod,
};

/// One backend of a service: the service's name and the backend's URL.
#[derive(Clone, Debug)]
pub struct ServiceEntry {
    pub name: String,
    pub url: String,
}

impl View for ServiceEntry {
    type V = (Seq<char>, Seq<char>);

    open spec fn view(&self) -> (Seq<char>, Seq<char>) {
        (self.name@, self.url@)
    }
}

/// The backends of one service, in order of registration, and its round-robin cursor.
#[derive(Debug)]
struct ServiceSlot {
    name: String,
    urls: Vec<String>,
    cursor: usize,
}

/// Maps service names to the ordered list of their backend URLs, with one
/// round-robin cursor per service.
#[derive(Debug)]
pub struct BackendRegistry {
    slots: Vec<ServiceSlot>,
}

/// The text of each string of a sequence.
pub open spec fn texts(v: Seq<String>) -> Seq<Seq<char>> {
    v.map_values(|s: String| s@)
}

/// The cursor after one pick among `k` backends.
pub open spec fn next_cursor(c: nat, k: nat) -> nat
    recommends
        k > 0,
{
    ((c + 1) as int % (k as int)) as nat
}

/// `urls` with every exact occurrence of `url` taken out, order kept.
pub open spec fn without(urls: Seq<Seq<char>>, url: Seq<char>) -> Seq<Seq<char>>
    decreases urls.len(),
{
    if urls.len() == 0 {
        urls
    } else {
        let rest = without(urls.drop_last(), url);
        if urls.last() == url {
            rest
        } else {
            rest.push(urls.last())
        }
    }
}


/// The cursor after `n` successive picks, from cursor `c`, among `k` backends.
pub open spec fn cursor_after(c: nat, k: nat, n: nat) -> nat
    decreases n,
{
    if n == 0 {
        c
    } else {
        next_cursor(cursor_after(c, k, (n - 1) as nat), k)
    }
}

/// How many of `n` successive picks, from cursor `c` among `k` backends,
/// take the backend at position `j`.
pub open spec fn visits(c: nat, k: nat, n: nat, j: nat) -> nat
    decreases n,
{
    if n == 0 {
        0
    } else {
        let hit: nat = if cursor_after(c, k, (n - 1) as nat) as int % k as int == j {
            1
        } else {
            0
        };
        visits(c, k, (n - 1) as nat, j) + hit
    }
}

/// The number of `i < n` with `i - d` a multiple of `k`, for `0 <= d < k`.
spec fn hits_before(d: int, k: int, n: int) -> int {
    if n <= d {
        0
    } else {
        (n - d - 1) / k + 1
    }
}

proof fn lemma_cursor_after_mod(c: nat, k: nat, i: nat)
    requires
        k > 0,
    ensures
        cursor_after(c, k, i) as int % k as int == (c + i) as int % k as int,
    decreases i,
{
    if i > 0 {
        let p = cursor_after(c, k, (i - 1) as nat);
        lemma_cursor_after_mod(c, k, (i - 1) as nat);
        lemma_mod_twice(p + 1int, k as int);
        lemma_add_mod_noop(p as int, 1, k as int);
        lemma_add_mod_noop((c + i - 1) as int, 1, k as int);
    }
}

proof fn lemma_step_div(m: int, k: int)
    requires
        m >= 1,
        k > 0,
    ensures
        m / k == (m - 1) / k + (if m % k == 0 { 1int } else { 0int }),
{
    lemma_fundamental_div_mod(m, k);
    lemma_fundamental_div_mod(m - 1, k);
    lemma_mod_bound(m, k);
    lemma_mod_bound(m - 1, k);
    let q1 = m / k;
    let r1 = m % k;
    let q2 = (m - 1) / k;
    let r2 = (m - 1) % k;
    assert(k * (q1 - q2) == r2 - r1 + 1) by (nonlinear_arith)
        requires
            m == k * q1 + r1,
            m - 1 == k * q2 + r2,
    ;
    if q1 - q2 >= 2 {
        assert(k * (q1 - q2) >= 2 * k) by (nonlinear_arith)
            requires
                q1 - q2 >= 2,
                k > 0,
        ;
    } else if q1 - q2 <= -1 {
        assert(k * (q1 - q2) <= -k) by (nonlinear_arith)
            requires
                q1 - q2 <= -1,
                k > 0,
        ;
    } else if q1 - q2 == 1 {
        assert(k * (q1 - q2) == k) by (nonlinear_arith)
            requires
                q1 - q2 == 1,
        ;
    } else {
        assert(k * (q1 - q2) == 0) by (nonlinear_arith)
            requires
                q1 - q2 == 0,
        ;
    }
}

proof fn lemma_negative_not_multiple(x: int, k: int)
    requires
        -k < x < 0,
    ensures
        x % k != 0,
{
    lemma_fundamental_div_mod(x, k);
    let q = x / k;
    if x % k == 0 {
        if q >= 0 {
            assert(k * q >= 0) by (nonlinear_arith)
                requires
                    q >= 0,
                    k > 0,
            ;
        } else {
            assert(k * q <= -k) by (nonlinear_arith)
                requires
                    q <= -1,
                    k > 0,
            ;
        }
    }
}

proof fn lemma_visits_closed(c: nat, k: nat, n: nat, j: nat)
    requires
        k > 0,
        j < k,
    ensures
        visits(c, k, n, j) == hits_before((j - c) % (k as int), k as int, n as int),
    decreases n,
{
    let d = (j - c) % (k as int);
    lemma_mod_bound(j - c, k as int);
    if n > 0 {
        let i = (n - 1) as nat;
        lemma_visits_closed(c, k, i, j);
        lemma_cursor_after_mod(c, k, i);
        lemma_small_mod(j, k);
        lemma_mod_equivalence((c + i) as int, j as int, k as int);
        lemma_fundamental_div_mod(j - c, k as int);
        lemma_mod_multiples_vanish((j - c) / (k as int), (c + i - j) as int, k as int);
        assert(i - d == k * ((j - c) / (k as int)) + (c + i - j));
        if i < d {
            lemma_negative_not_multiple(i - d, k as int);
        } else if i == d {
            lemma_basic_div(0, k as int);
        } else {
            lemma_step_div(i - d, k as int);
        }
    }
}

/// Round-robin fairness: over any `n` successive picks on a service with
/// `k > 0` backends, from any cursor, the backend at each position `j` is
/// picked ⌊n/k⌋ or ⌈n/k⌉ times.
pub proof fn lemma_round_robin_fair(c: nat, k: nat, n: nat, j: nat)
    requires
        k > 0,
        j < k,
    ensures
        n / k <= visits(c, k, n, j) <= (n + k - 1) / k as int,
{
    lemma_visits_closed(c, k, n, j);
    let d = (j - c) % (k as int);
    lemma_mod_bound(j - c, k as int);
    lemma_div_pos_is_pos(n + k - 1, k as int);
    if n <= d {
        lemma_basic_div(n as int, k as int);
    } else {
        lemma_hoist_over_denominator(n - d - 1, 1, k);
        lemma_div_is_ordered(n as int, n - d - 1 + k, k as int);
        lemma_div_is_ordered(n - d - 1 + k, n + k - 1, k as int);
    }
}

/// Each pick follows the last: the positions that `n` successive picks take
/// from cursor `c` among `k` backends are `c, c + 1, ...` modulo `k`.
pub proof fn lemma_picks_rotate(c: nat, k: nat, n: nat)
    requires
        k > 0,
    ensures
        cursor_after(c, k, n) as int % k as int == (c + n) as int % k as int,
{
    lemma_cursor_after_mod(c, k, n);
}

/// Successive picks walk the backends in rotation: along states that each
/// follow the last by a pick on `name`, the backends of `name` stay as they
/// were and its cursor is `cursor_after` the first cursor. With
/// `lemma_round_robin_fair`, any `n` successive picks on a service with
/// `k > 0` backends take each position ⌊n/k⌋ or ⌈n/k⌉ times.
pub proof fn lemma_pick_sequence(states: Seq<BackendRegistry>, name: Seq<char>)
    requires
        states.len() > 0,
        states[0].backends(name).len() > 0,
        forall|i: int|
            0 <= i < states.len() - 1 ==> #[trigger] states[i + 1].after_pick(&states[i], name),
    ensures
        forall|i: int|
            0 <= i < states.len() ==> #[trigger] states[i].backends(name) == states[0].backends(
                name,
            ) && states[i].cursor(name) == cursor_after(
                states[0].cursor(name),
                states[0].backends(name).len(),
                i as nat,
            ),
    decreases states.len(),
{
    if states.len() > 1 {
        let prefix = states.drop_last();
        assert forall|i: int| 0 <= i < prefix.len() - 1 implies #[trigger] prefix[i + 1].after_pick(
            &prefix[i],
            name,
        ) by {
            assert(prefix[i + 1] == states[i + 1]);
            assert(prefix[i] == states[i]);
            assert(states[i + 1].after_pick(&states[i], name));
        }
        lemma_pick_sequence(prefix, name);
        let last = states.len() - 1;
        assert(prefix[last - 1] == states[last - 1]);
        let j = last - 1;
        assert(states[j + 1].after_pick(&states[j], name));
        assert forall|i: int| 0 <= i < states.len() implies #[trigger] states[i].backends(name)
            == states[0].backends(name) && states[i].cursor(name) == cursor_after(
            states[0].cursor(name),
            states[0].backends(name).len(),
            i as nat,
        ) by {
            assert(prefix[0] == states[0]);
            if i < last {
                assert(prefix[i] == states[i]);
            } else {
                let c = states[0].cursor(name);
                let k = states[0].backends(name).len();
                assert(prefix[j] == states[j]);
                assert(states[j].pick_result(name) is Some);
                assert(cursor_after(c, k, i as nat) == next_cursor(cursor_after(c, k, j as nat), k));
            }
        }
    } else {
        assert(cursor_after(states[0].cursor(name), states[0].backends(name).len(), 0) == states[0].cursor(
            name,
        ));
    }
}

proof fn lemma_without_drops(urls: Seq<Seq<char>>, url: Seq<char>)
    ensures
        !without(urls, url).contains(url),
    decreases urls.len(),
{
    if urls.len() > 0 {
        lemma_without_drops(urls.drop_last(), url);
        let rest = without(urls.drop_last(), url);
        if urls.last() != url {
            assert forall|i: int| 0 <= i < rest.push(urls.last()).len() implies rest.push(
                urls.last(),
            )[i] != url by {
                if i < rest.len() {
                    assert(rest[i] == rest.push(urls.last())[i]);
                }
            }
        }
    }
}

/// Registering `url` under `name` and then deregistering it leaves `url` out
/// of the backends of `name`: no pick on `name` returns it, neither right
/// after nor after further picks, which keep the backends as they are.
pub proof fn lemma_register_then_deregister(
    r0: BackendRegistry,
    r1: BackendRegistry,
    r2: BackendRegistry,
    name: Seq<char>,
    url: Seq<char>,
)
    requires
        r1.backends(name) == r0.backends(name).push(url),
        r2.backends(name) == without(r1.backends(name), url),
    ensures
        !r2.backends(name).contains(url),
        forall|r3: BackendRegistry|
            r3.backends(name) == r2.backends(name) ==> #[trigger] r3.pick_result(name) != Some(url),
{
    lemma_without_drops(r1.backends(name), url);
    assert forall|r3: BackendRegistry|
        r3.backends(name) == r2.backends(name) implies #[trigger] r3.pick_result(name) != Some(
        url,
    ) by {
        let b = r3.backends(name);
        if b.len() > 0 {
            let c = r3.cursor(name) % b.len();
            assert(0 <= c < b.len());
            assert(b[c as int] != url);
        }
    }
}

impl BackendRegistry {
    /// The position of the first slot named `name`, if there is one.
    spec fn has_slot_at(&self, name: Seq<char>, i: int) -> bool {
        &&& 0 <= i < self.slots.len()
        &&& self.slots[i].name@ == name
        &&& forall|j: int| 0 <= j < i ==> self.slots[j].name@ != name
    }

    spec fn slot_index(&self, name: Seq<char>) -> int {
        choose|i: int| self.has_slot_at(name, i)
    }

    /// Whether `name` has ever been registered.
    pub closed spec fn is_known(&self, name: Seq<char>) -> bool {
        exists|i: int| 0 <= i < self.slots.len() && self.slots[i].name@ == name
    }

    /// The backend URLs of `name`, in order of registration (empty when unknown).
    pub closed spec fn backends(&self, name: Seq<char>) -> Seq<Seq<char>> {
        if self.is_known(name) {
            texts(self.slots[self.slot_index(name)].urls@)
        } else {
            Seq::empty()
        }
    }

    /// The round-robin cursor of `name` (0 when unknown).
    pub closed spec fn cursor(&self, name: Seq<char>) -> nat {
        if self.is_known(name) {
            self.slots[self.slot_index(name)].cursor as nat
        } else {
            0
        }
    }

    /// What a pick on `name` returns in this state: the backend at the cursor,
    /// taken modulo the number of backends, or nothing when there are none.
    pub open spec fn pick_result(&self, name: Seq<char>) -> Option<Seq<char>> {
        let b = self.backends(name);
        if b.len() == 0 {
            None
        } else {
            Some(b[(self.cursor(name) % b.len()) as int])
        }
    }

    /// Every service but `name` keeps its backends and cursor from `other`.
    pub open spec fn others_unchanged(&self, other: &Self, name: Seq<char>) -> bool {
        forall|n: Seq<char>|
            n != name ==> {
                &&& self.is_known(n) == other.is_known(n)
                &&& self.backends(n) == other.backends(n)
                &&& self.cursor(n) == other.cursor(n)
            }
    }

    /// The state after a pick on `name` from `old`: every backend list stays,
    /// and only the cursor of `name` moves on, when the pick found a backend.
    pub open spec fn after_pick(&self, old: &Self, name: Seq<char>) -> bool {
        &&& self.is_known(name) == old.is_known(name)
        &&& self.backends(name) == old.backends(name)
        &&& self.cursor(name) == if old.pick_result(name) is None {
            old.cursor(name)
        } else {
            next_cursor(old.cursor(name), old.backends(name).len())
        }
        &&& self.others_unchanged(old, name)
    }

    proof fn lemma_first_slot(&self, name: Seq<char>, i: int)
        requires
            self.has_slot_at(name, i),
        ensures
            self.is_known(name),
            self.slot_index(name) == i,
    {
        let k = self.slot_index(name);
        assert(self.has_slot_at(name, k));
        if k < i {
            assert(self.slots[k].name@ != name);
        } else if k > i {
            assert(self.slots[i].name@ != name);
        }
    }

    proof fn lemma_known_has_first(&self, name: Seq<char>)
        requires
            self.is_known(name),
        ensures
            self.has_slot_at(name, self.slot_index(name)),
    {
        let w = choose|w: int| 0 <= w < self.slots.len() && self.slots[w].name@ == name;
        self.lemma_least(name, w);
    }

    proof fn lemma_least(&self, name: Seq<char>, w: int)
        requires
            0 <= w < self.slots.len(),
            self.slots[w].name@ == name,
        ensures
            exists|i: int| self.has_slot_at(name, i),
        decreases w,
    {
        if exists|j: int| 0 <= j < w && self.slots[j].name@ == name {
            let j = choose|j: int| 0 <= j < w && self.slots[j].name@ == name;
            self.lemma_least(name, j);
        } else {
            assert(self.has_slot_at(name, w));
        }
    }

    /// Only slot `i`, the first one named `name`, changed its backends or cursor.
    proof fn lemma_slot_updated(&self, old: &Self, name: Seq<char>, i: int)
        requires
            old.has_slot_at(name, i),
            self.slots.len() == old.slots.len(),
            forall|j: int| 0 <= j < self.slots.len() ==> self.slots[j].name@ == old.slots[j].name@,
            forall|j: int| 0 <= j < self.slots.len() && j != i ==> self.slots[j] == old.slots[j],
        ensures
            self.has_slot_at(name, i),
            self.is_known(name),
            self.slot_index(name) == i,
            old.slot_index(name) == i,
            self.others_unchanged(old, name),
    {
        old.lemma_first_slot(name, i);
        self.lemma_first_slot(name, i);
        assert forall|n: Seq<char>| n != name implies {
            &&& self.is_known(n) == old.is_known(n)
            &&& self.backends(n) == old.backends(n)
            &&& self.cursor(n) == old.cursor(n)
        } by {
            if old.is_known(n) {
                old.lemma_known_has_first(n);
                let k = old.slot_index(n);
                assert(self.slots[k].name@ == n);
                self.lemma_first_slot(n, k);
            } else {
                assert forall|j: int| 0 <= j < self.slots.len() implies self.slots[j].name@ != n by {
                    assert(old.slots[j].name@ != n);
                }
            }
        }
    }

    /// A slot named `name`, which no slot had, was added after all others.
    proof fn lemma_slot_added(&self, old: &Self, name: Seq<char>)
        requires
            !old.is_known(name),
            self.slots.len() == old.slots.len() + 1,
            forall|j: int| 0 <= j < old.slots.len() ==> self.slots[j] == old.slots[j],
            self.slots[old.slots.len() as int].name@ == name,
        ensures
            self.has_slot_at(name, old.slots.len() as int),
            self.is_known(name),
            self.slot_index(name) == old.slots.len(),
            self.others_unchanged(old, name),
    {
        let last = old.slots.len() as int;
        assert forall|j: int| 0 <= j < last implies self.slots[j].name@ != name by {
            assert(old.slots[j].name@ != name);
        }
        self.lemma_first_slot(name, last);
        assert forall|n: Seq<char>| n != name implies {
            &&& self.is_known(n) == old.is_known(n)
            &&& self.backends(n) == old.backends(n)
            &&& self.cursor(n) == old.cursor(n)
        } by {
            if old.is_known(n) {
                old.lemma_known_has_first(n);
                let k = old.slot_index(n);
                self.lemma_first_slot(n, k);
            } else {
                assert forall|j: int| 0 <= j < self.slots.len() implies self.slots[j].name@ != n by {
                    if j < last {
                        assert(old.slots[j].name@ != n);
                    }
                }
            }
        }
    }

    /// An empty registry.
    pub fn new() -> (r: Self)
        ensures
            forall|n: Seq<char>|
                #![auto]
                !r.is_known(n) && r.backends(n) == Seq::<Seq<char>>::empty() && r.cursor(n) == 0,
    {
        BackendRegistry { slots: Vec::new() }
    }

    /// The position of the slot named `name`, if any.
    fn find(&self, name: &str) -> (r: Option<usize>)
        ensures
            match r {
                Some(i) => self.has_slot_at(name@, i as int),
                None => !self.is_known(name@),
            },
    {
        let key = name.to_owned();
        let mut i: usize = 0;
        while i < self.slots.len()
            invariant
                0 <= i <= self.slots.len(),
                key@ == name@,
                forall|j: int| 0 <= j < i ==> self.slots[j].name@ != name@,
            decreases self.slots.len() - i,
        {
            if self.slots[i].name == key {
                return Some(i);
            }
            i = i + 1;
        }
        None
    }

    /// Appends `url` to the backends of `name`; a URL may be registered more
    /// than once, which weighs it more in the rotation.
    pub fn register(&mut self, name: &str, url: &str)
        ensures
            final(self).is_known(name@),
            final(self).backends(name@) == old(self).backends(name@).push(url@),
            final(self).cursor(name@) == old(self).cursor(name@),
            final(self).others_unchanged(old(self), name@),
    {
        match self.find(name) {
            Some(i) => {
                self.slots[i].urls.push(url.to_owned());
                proof {
                    self.lemma_slot_updated(old(self), name@, i as int);
                    assert(texts(self.slots[i as int].urls@) =~= texts(
                        old(self).slots[i as int].urls@,
                    ).push(url@));
                }
            },
            None => {
                let mut urls: Vec<String> = Vec::new();
                urls.push(url.to_owned());
                self.slots.push(ServiceSlot { name: name.to_owned(), urls, cursor: 0 });
                proof {
                    self.lemma_slot_added(old(self), name@);
                    assert(texts(urls@) =~= Seq::<Seq<char>>::empty().push(url@));
                }
            },
        }
    }

    /// Removes every backend of `name` whose URL is exactly `url`. The cursor
    /// is kept; the next pick takes it modulo the new number of backends.
    pub fn deregister(&mut self, name: &str, url: &str)
        ensures
            final(self).is_known(name@) == old(self).is_known(name@),
            final(self).backends(name@) == without(old(self).backends(name@), url@),
            final(self).cursor(name@) == old(self).cursor(name@),
            final(self).others_unchanged(old(self), name@),
    {
        match self.find(name) {
            Some(i) => {
                let key = url.to_owned();
                let mut kept: Vec<String> = Vec::new();
                let mut j: usize = 0;
                while j < self.slots[i].urls.len()
                    invariant
                        i < self.slots.len(),
                        key@ == url@,
                        0 <= j <= self.slots[i as int].urls.len(),
                        texts(kept@) == without(
                            texts(self.slots[i as int].urls@.subrange(0, j as int)),
                            url@,
                        ),
                    decreases self.slots[i as int].urls.len() - j,
                {
                    let ghost before = self.slots[i as int].urls@.subrange(0, j as int);
                    let ghost after = self.slots[i as int].urls@.subrange(0, j as int + 1);
                    proof {
                        assert(texts(after).drop_last() =~= texts(before));
                    }
                    if self.slots[i].urls[j] != key {
                        let ghost prev = kept@;
                        kept.push(self.slots[i].urls[j].clone());
                        proof {
                            assert(texts(kept@) =~= texts(prev).push(texts(after).last()));
                        }
                    }
                    j = j + 1;
                }
                proof {
                    assert(self.slots[i as int].urls@.subrange(0, j as int) =~= self.slots[i as int].urls@);
                }
                self.slots[i].urls = kept;
                proof {
                    self.lemma_slot_updated(old(self), name@, i as int);
                }
            },
            None => {},
        }
    }

    /// Picks the next backend of `name` in round-robin order: the one at the
    /// cursor taken modulo the number of backends, after which the cursor
    /// moves on by one. Returns nothing, and changes nothing, when `name` is
    /// unknown or has no backends.
    pub fn pick_one(&mut self, name: &str) -> (r: Option<String>)
        ensures
            r is None <==> (!old(self).is_known(name@) || old(self).backends(name@).len() == 0),
            match r {
                Some(u) => Some(u@) == old(self).pick_result(name@),
                None => old(self).pick_result(name@) is None,
            },
            final(self).after_pick(old(self), name@),
    {
        match self.find(name) {
            None => None,
            Some(i) => {
                proof {
                    self.lemma_first_slot(name@, i as int);
                }
                let k = self.slots[i].urls.len();
                if k == 0 {
                    return None;
                }
                let c = self.slots[i].cursor;
                let idx = c % k;
                let url = self.slots[i].urls[idx].clone();
                let next = (idx + 1) % k;
                proof {
                    lemma_add_mod_noop(c as int, 1, k as int);
                    if k > 1 {
                        lemma_small_mod(1, k as nat);
                    } else {
                        assert((c as int + 1) % 1 == 0 && (c as int % 1 + 1) % 1 == 0) by (nonlinear_arith);
                    }
                    lemma_mod_bound(c as int, k as int);
                    lemma_mod_bound(idx as int + 1, k as int);
                }
                self.slots[i].cursor = next;
                proof {
                    self.lemma_slot_updated(old(self), name@, i as int);
                }
                Some(url)
            },
        }
    }

    /// A copy of the backend URLs of `name`, in order.
    pub fn list(&self, name: &str) -> (r: Vec<String>)
        ensures
            texts(r@) == self.backends(name@),
            !self.is_known(name@) ==> r@.len() == 0,
    {
        let mut out: Vec<String> = Vec::new();
        match self.find(name) {
            None => {
                proof {
                    assert(texts(out@) =~= Seq::<Seq<char>>::empty());
                }
            },
            Some(i) => {
                proof {
                    self.lemma_first_slot(name@, i as int);
                }
                let mut j: usize = 0;
                while j < self.slots[i].urls.len()
                    invariant
                        i < self.slots.len(),
                        0 <= j <= self.slots[i as int].urls.len(),
                        texts(out@) == texts(self.slots[i as int].urls@.subrange(0, j as int)),
                    decreases self.slots[i as int].urls.len() - j,
                {
                    let ghost prev = out@;
                    out.push(self.slots[i].urls[j].clone());
                    proof {
                        assert(texts(self.slots[i as int].urls@.subrange(0, j as int + 1)) =~= texts(
                            self.slots[i as int].urls@.subrange(0, j as int),
                        ).push(self.slots[i as int].urls@[j as int]@));
                        assert(texts(out@) =~= texts(prev).push(self.slots[i as int].urls@[j as int]@));
                    }
                    j = j + 1;
                }
                proof {
                    assert(self.slots[i as int].urls@.subrange(0, j as int) =~= self.slots[i as int].urls@);
                }
            },
        }
        out
    }

    /// A copy of the backends of `name` as entries that carry the name.
    pub fn list_entries(&self, name: &str) -> (r: Vec<ServiceEntry>)
        ensures
            r@.len() == self.backends(name@).len(),
            forall|i: int| 0 <= i < r@.len() ==> #[trigger] r@[i]@ == (name@, self.backends(name@)[i]),
    {
        let urls = self.list(name);
        let mut out: Vec<ServiceEntry> = Vec::new();
        let mut j: usize = 0;
        while j < urls.len()
            invariant
                texts(urls@) == self.backends(name@),
                0 <= j <= urls.len(),
                out@.len() == j,
                forall|i: int| 0 <= i < j ==> #[trigger] out@[i]@ == (name@, urls@[i]@),
            decreases urls.len() - j,
        {
            out.push(ServiceEntry { name: name.to_owned(), url: urls[j].clone() });
            j = j + 1;
        }
        out
    }
}

} // verus!
