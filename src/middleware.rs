use vstd::prelude::*;

verus! {

use vstd::string::*;
use crate::text::utf8;

/// A header: its name, in lower case as HTTP keeps it, and its raw value.
#[derive(Clone, Debug)]
pub struct HeaderField {
    pub name: String,
    pub value: Vec<u8>,
}

/// A byte that HTTP accepts in a header value read as text.
pub open spec fn is_text_byte(b: u8) -> bool {
    (32 <= b && b < 127) || b == 9
}

/// Whether a header value reads as text.
pub open spec fn is_text(v: Seq<u8>) -> bool {
    forall|i: int| 0 <= i < v.len() ==> is_text_byte(#[trigger] v[i])
}

/// The value of the first header of `hs` named `name`.
pub open spec fn header_value(hs: Seq<HeaderField>, name: Seq<char>) -> Option<Seq<u8>>
    decreases hs.len(),
{
    if hs.len() == 0 {
        None
    } else if hs[0].name@ == name {
        Some(hs[0].value@)
    } else {
        header_value(hs.drop_first(), name)
    }
}

/// The value of the `authorization` header of `hs`.
pub open spec fn authorization_of(hs: Seq<HeaderField>) -> Option<Seq<u8>> {
    header_value(hs, "authorization"@)
}

/// Whether a gate configured with `token` lets through a request whose
/// `authorization` header is `header`: an empty token lets all through,
/// another only a header that reads as text and equals it verbatim.
pub open spec fn admits(token: Seq<char>, header: Option<Seq<u8>>) -> bool {
    token.len() == 0 || match header {
        Some(v) => is_text(v) && v == utf8(token),
        None => false,
    }
}

/// The bearer gate matches verbatim: with a non-empty token, a request whose
/// `authorization` header is exactly the token passes, and one whose header
/// holds anything else, or that has none, is refused.
pub proof fn lemma_bearer_verbatim(token: Seq<char>, header: Option<Seq<u8>>)
    requires
        token.len() > 0,
    ensures
        is_text(utf8(token)) ==> admits(token, Some(utf8(token))),
        header != Some(utf8(token)) ==> !admits(token, header),
{
}

proof fn lemma_header_value_at(hs: Seq<HeaderField>, name: Seq<char>, i: int)
    requires
        0 <= i <= hs.len(),
        forall|j: int| 0 <= j < i ==> hs[j].name@ != name,
    ensures
        header_value(hs, name) == header_value(hs.subrange(i, hs.len() as int), name),
    decreases i,
{
    if i > 0 {
        assert forall|j: int| 0 <= j < i - 1 implies hs.drop_first()[j].name@ != name by {
            assert(hs.drop_first()[j] == hs[j + 1]);
        }
        lemma_header_value_at(hs.drop_first(), name, i - 1);
        assert(hs.drop_first().subrange(i - 1, hs.len() - 1) =~= hs.subrange(i, hs.len() as int));
    } else {
        assert(hs.subrange(0, hs.len() as int) =~= hs);
    }
}

/// The position of the first header of `hs` named `name`, if any.
fn find_header(hs: &Vec<HeaderField>, name: &str) -> (r: Option<usize>)
    ensures
        match r {
            Some(i) => i < hs@.len() && header_value(hs@, name@) == Some(hs@[i as int].value@),
            None => header_value(hs@, name@) is None,
        },
{
    let key = name.to_owned();
    let mut i: usize = 0;
    while i < hs.len()
        invariant
            key@ == name@,
            0 <= i <= hs@.len(),
            forall|j: int| 0 <= j < i ==> hs@[j].name@ != name@,
        decreases hs@.len() - i,
    {
        if hs[i].name == key {
            proof {
                lemma_header_value_at(hs@, name@, i as int);
            }
            return Some(i);
        }
        i = i + 1;
    }
    proof {
        lemma_header_value_at(hs@, name@, i as int);
    }
    None
}

/// Whether a header value reads as text.
pub fn value_is_text(v: &[u8]) -> (r: bool)
    ensures
        r == is_text(v@),
{
    let mut i: usize = 0;
    while i < v.len()
        invariant
            0 <= i <= v@.len(),
            forall|j: int| 0 <= j < i ==> is_text_byte(#[trigger] v@[j]),
        decreases v@.len() - i,
    {
        let b = v[i];
        if !((32 <= b && b < 127) || b == 9) {
            return false;
        }
        i = i + 1;
    }
    true
}

fn same_bytes(a: &[u8], b: &[u8]) -> (r: bool)
    ensures
        r == (a@ == b@),
{
    if a.len() != b.len() {
        return false;
    }
    let mut i: usize = 0;
    while i < a.len()
        invariant
            a@.len() == b@.len(),
            0 <= i <= a@.len(),
            forall|j: int| 0 <= j < i ==> a@[j] == b@[j],
        decreases a@.len() - i,
    {
        if a[i] != b[i] {
            return false;
        }
        i = i + 1;
    }
    proof {
        assert(a@ =~= b@);
    }
    true
}

/// The bearer-token gate of the HTTP listeners.
#[derive(Clone, Debug)]
pub struct BearerAuth(pub String);

impl BearerAuth {
    /// Lets a request through when the token is empty, or when its first
    /// `authorization` header reads as text and equals the token verbatim
    /// (no scheme such as `Bearer ` is stripped).
    pub fn authorize(&self, headers: &Vec<HeaderField>) -> (r: bool)
        ensures
            r == admits(self.0@, authorization_of(headers@)),
    {
        if self.0.as_str().is_empty() {
            return true;
        }
        match find_header(headers, "authorization") {
            None => false,
            Some(i) => {
                let v = headers[i].value.as_slice();
                value_is_text(v) && same_bytes(v, self.0.as_str().as_bytes())
            },
        }
    }
}


/// Thousandths of a permit in one permit.
pub const MILLIS_PER_PERMIT: u64 = 1000;

/// A token bucket shared by the HTTP listeners. It holds up to `capacity`
/// permits, gains `per_sec` permits each second (counted per millisecond,
/// in thousandths of a permit), and each admitted request takes one.
#[derive(Debug)]
pub struct RateLimiter {
    capacity: u64,
    per_sec: u64,
    level: u64,
    last_ms: u64,
}

/// The fill, in thousandths of a permit, after `elapsed` milliseconds at
/// `per_sec` permits a second, from `level`, capped at `cap`.
pub open spec fn refill(level: nat, elapsed: nat, per_sec: nat, cap: nat) -> nat {
    let grown = level + elapsed * per_sec;
    if grown > cap {
        cap
    } else {
        grown
    }
}

impl RateLimiter {
    /// Bucket size in permits.
    pub closed spec fn capacity(&self) -> nat {
        self.capacity as nat
    }

    /// Permits gained per second.
    pub closed spec fn per_sec(&self) -> nat {
        self.per_sec as nat
    }

    /// Current fill, in thousandths of a permit.
    pub closed spec fn level(&self) -> nat {
        self.level as nat
    }

    /// The last time, in milliseconds, that the bucket was refilled.
    pub closed spec fn last_ms(&self) -> nat {
        self.last_ms as nat
    }

    pub closed spec fn wf(&self) -> bool {
        &&& self.capacity <= u32::MAX
        &&& self.per_sec <= u32::MAX
        &&& self.level <= self.capacity * MILLIS_PER_PERMIT
    }

    /// The fill at time `now`: the clock never runs back, so an earlier
    /// `now` adds nothing.
    pub open spec fn level_at(&self, now: nat) -> nat {
        if now <= self.last_ms() {
            self.level()
        } else {
            refill(
                self.level(),
                (now - self.last_ms()) as nat,
                self.per_sec(),
                self.capacity() * (MILLIS_PER_PERMIT as nat),
            )
        }
    }

    /// Whether the bucket, refilled up to `now`, holds a whole permit.
    pub open spec fn has_permit_at(&self, now: nat) -> bool {
        self.level_at(now) >= MILLIS_PER_PERMIT
    }

    /// The state after a request for a permit at `now` from `old`: refilled
    /// up to `now`, less one permit when it held one.
    pub open spec fn after_acquire(&self, old: &Self, now: nat) -> bool {
        &&& self.wf()
        &&& self.level() == if old.has_permit_at(now) {
            old.level_at(now) - MILLIS_PER_PERMIT
        } else {
            old.level_at(now) as int
        }
        &&& self.last_ms() == if now > old.last_ms() {
            now
        } else {
            old.last_ms()
        }
        &&& self.capacity() == old.capacity()
        &&& self.per_sec() == old.per_sec()
    }

    /// A full bucket of `burst` permits that gains `per_sec` permits a
    /// second; with `burst` 0 it holds `per_sec` permits instead.
    pub fn new(per_sec: u32, burst: u32, now_ms: u64) -> (r: Self)
        ensures
            r.wf(),
            r.capacity() == if burst > 0 { burst as nat } else { per_sec as nat },
            r.per_sec() == per_sec,
            r.level() == r.capacity() * (MILLIS_PER_PERMIT as nat),
            r.last_ms() == now_ms,
    {
        let capacity: u64 = if burst > 0 { burst as u64 } else { per_sec as u64 };
        RateLimiter {
            capacity,
            per_sec: per_sec as u64,
            level: capacity * MILLIS_PER_PERMIT,
            last_ms: now_ms,
        }
    }

    /// Takes one permit at time `now_ms` if the bucket, refilled up to then,
    /// holds one; tells whether it did.
    pub fn try_acquire(&mut self, now_ms: u64) -> (r: bool)
        requires
            old(self).wf(),
        ensures
            r == old(self).has_permit_at(now_ms as nat),
            final(self).after_acquire(old(self), now_ms as nat),
    {
        let cap = self.capacity * MILLIS_PER_PERMIT;
        if now_ms > self.last_ms {
            let elapsed = now_ms - self.last_ms;
            let room = cap - self.level;
            if self.per_sec > 0 && elapsed > room / self.per_sec {
                proof {
                    let q = room / self.per_sec;
                    vstd::arithmetic::div_mod::lemma_fundamental_div_mod(
                        room as int,
                        self.per_sec as int,
                    );
                    vstd::arithmetic::div_mod::lemma_mod_bound(room as int, self.per_sec as int);
                    assert(elapsed * self.per_sec > room) by (nonlinear_arith)
                        requires
                            elapsed >= q + 1,
                            room == self.per_sec * q + room % self.per_sec,
                            room % self.per_sec < self.per_sec,
                            self.per_sec > 0,
                    ;
                }
                self.level = cap;
            } else {
                proof {
                    if self.per_sec > 0 {
                        let q = room / self.per_sec;
                        vstd::arithmetic::div_mod::lemma_fundamental_div_mod(
                            room as int,
                            self.per_sec as int,
                        );
                        vstd::arithmetic::div_mod::lemma_mod_bound(
                            room as int,
                            self.per_sec as int,
                        );
                        assert(elapsed * self.per_sec <= room) by (nonlinear_arith)
                            requires
                                elapsed <= q,
                                room == self.per_sec * q + room % self.per_sec,
                                room % self.per_sec >= 0,
                                self.per_sec > 0,
                        ;
                    }
                }
                self.level = self.level + elapsed * self.per_sec;
            }
            self.last_ms = now_ms;
        }
        if self.level >= MILLIS_PER_PERMIT {
            self.level = self.level - MILLIS_PER_PERMIT;
            true
        } else {
            false
        }
    }
}

} // verus!
