//! Contacts, routing, arming and per-device pulses: the bridge's state
//! machine. Time is a millisecond clock the caller reads; contact values
//! arrive with whether they are above the 0.5 threshold.
use vstd::prelude::*;
use crate::text::{decimal, decimal_exec, has_prefix, join, join_exec, same_text, starts_with, views};

verus! {

/// What one pulse sends: op 0 shock, 1 vibrate, 2 beep; intensity in
/// percent; duration in seconds.
#[derive(Clone, Copy, PartialEq, Eq, Debug, Structural)]
pub struct Pulse {
    pub op: u8,
    pub intensity: u8,
    pub duration: u8,
}

/// A pulse to send to each of the named devices.
#[derive(Debug, PartialEq, Eq)]
pub struct Batch {
    pub devices: Vec<String>,
    pub pulse: Pulse,
}

/// One avatar contact parameter.
pub struct Contact {
    /// The full OSC path, `/avatar/parameters/SHK...`.
    pub path: String,
    /// The bits of the last value (an `f64`), kept for display.
    pub bits: u64,
    /// Whether the last value was above 0.5.
    pub high: bool,
    /// The devices this contact fires.
    pub routes: Vec<String>,
    /// When the last live value arrived.
    pub last_live: Option<u64>,
}

/// A contact value as read from a parameter tree.
pub struct Reading {
    pub path: String,
    pub bits: u64,
    pub high: bool,
}

/// The bridge's state.
pub struct State {
    pub contacts: Vec<Contact>,
    pub devices: Vec<String>,
    pub armed: bool,
    pub connected: bool,
    /// The devices a pulse is being sent to.
    pub busy: Vec<String>,
    /// Until when (milliseconds) each device ignores activations.
    pub cooling: Vec<(String, u64)>,
    pub op: u8,
    pub intensity: u8,
    pub duration: u8,
    pub cooldown: u8,
    pub random: bool,
    pub status: String,
    pub osc_packets: u64,
    /// The last result line per device.
    pub results: Vec<(String, String)>,
}

/// A contact as plain values.
#[verifier::ext_equal]
pub struct ContactView {
    pub path: Seq<char>,
    pub bits: u64,
    pub high: bool,
    pub routes: Seq<Seq<char>>,
    pub last_live: Option<u64>,
}

/// The state as plain values.
#[verifier::ext_equal]
pub struct StateView {
    pub contacts: Seq<ContactView>,
    pub devices: Seq<Seq<char>>,
    pub armed: bool,
    pub connected: bool,
    pub busy: Seq<Seq<char>>,
    pub cooling: Seq<(Seq<char>, u64)>,
    pub op: u8,
    pub intensity: u8,
    pub duration: u8,
    pub cooldown: u8,
    pub random: bool,
    pub status: Seq<char>,
    pub osc_packets: u64,
    pub results: Seq<(Seq<char>, Seq<char>)>,
}

/// A contact's view.
pub open spec fn contact_view(c: Contact) -> ContactView {
    ContactView { path: c.path@, bits: c.bits, high: c.high, routes: views(c.routes@), last_live: c.last_live }
}

/// The views of contacts.
pub open spec fn contacts_view(cs: Seq<Contact>) -> Seq<ContactView> {
    cs.map_values(|c: Contact| contact_view(c))
}

/// The view of a cooling table.
pub open spec fn cooling_view(m: Seq<(String, u64)>) -> Seq<(Seq<char>, u64)> {
    m.map_values(|e: (String, u64)| (e.0@, e.1))
}

/// The view of a result table.
pub open spec fn results_view(m: Seq<(String, String)>) -> Seq<(Seq<char>, Seq<char>)> {
    m.map_values(|e: (String, String)| (e.0@, e.1@))
}

impl View for State {
    type V = StateView;

    open spec fn view(&self) -> StateView {
        StateView {
            contacts: contacts_view(self.contacts@),
            devices: views(self.devices@),
            armed: self.armed,
            connected: self.connected,
            busy: views(self.busy@),
            cooling: cooling_view(self.cooling@),
            op: self.op,
            intensity: self.intensity,
            duration: self.duration,
            cooldown: self.cooldown,
            random: self.random,
            status: self.status@,
            osc_packets: self.osc_packets,
            results: results_view(self.results@),
        }
    }
}

/// No name occurs twice.
pub open spec fn distinct(s: Seq<Seq<char>>) -> bool {
    forall|i: int, j: int| 0 <= i < j < s.len() ==> s[i] != s[j]
}

/// No key occurs twice in a table.
pub open spec fn distinct_keys<V>(m: Seq<(Seq<char>, V)>) -> bool {
    forall|i: int, j: int| 0 <= i < j < m.len() ==> m[i].0 != m[j].0
}

impl StateView {
    /// The state's invariant, which keyed maps and sets would give: no two
    /// contacts share a path, no contact routes to a device twice, no device
    /// is marked sending twice, and the cooldown and result tables hold at
    /// most one entry per device.
    pub open spec fn wf(self) -> bool {
        &&& forall|i: int, j: int| 0 <= i < j < self.contacts.len() ==> self.contacts[i].path != self.contacts[j].path
        &&& forall|i: int| 0 <= i < self.contacts.len() ==> distinct(#[trigger] self.contacts[i].routes)
        &&& distinct(self.busy)
        &&& distinct_keys(self.cooling)
        &&& distinct_keys(self.results)
    }
}

/// The first position of key `k` in a table.
pub open spec fn key_pos<V>(m: Seq<(Seq<char>, V)>, k: Seq<char>) -> Option<int> {
    if exists|i: int| 0 <= i < m.len() && m[i].0 == k {
        Some(choose|i: int| 0 <= i < m.len() && m[i].0 == k && forall|j: int| 0 <= j < i ==> m[j].0 != k)
    } else {
        None
    }
}

/// The value under key `k`.
pub open spec fn lookup<V>(m: Seq<(Seq<char>, V)>, k: Seq<char>) -> Option<V> {
    match key_pos(m, k) {
        Some(i) => Some(m[i].1),
        None => None,
    }
}

/// The table with `k` mapped to `v`: in place when present, else added last.
pub open spec fn put<V>(m: Seq<(Seq<char>, V)>, k: Seq<char>, v: V) -> Seq<(Seq<char>, V)> {
    match key_pos(m, k) {
        Some(i) => m.update(i, (k, v)),
        None => m.push((k, v)),
    }
}

/// The entries whose key is one of `keys`, in order.
pub open spec fn keep_keys<V>(m: Seq<(Seq<char>, V)>, keys: Seq<Seq<char>>) -> Seq<(Seq<char>, V)>
    decreases m.len(),
{
    if m.len() == 0 {
        m
    } else if keys.contains(m.last().0) {
        keep_keys(m.drop_last(), keys).push(m.last())
    } else {
        keep_keys(m.drop_last(), keys)
    }
}

/// The members that are also in `keys`, in order.
pub open spec fn keep_in(s: Seq<Seq<char>>, keys: Seq<Seq<char>>) -> Seq<Seq<char>>
    decreases s.len(),
{
    if s.len() == 0 {
        s
    } else if keys.contains(s.last()) {
        keep_in(s.drop_last(), keys).push(s.last())
    } else {
        keep_in(s.drop_last(), keys)
    }
}

/// The set with `x` added.
pub open spec fn set_add(s: Seq<Seq<char>>, x: Seq<char>) -> Seq<Seq<char>> {
    if s.contains(x) {
        s
    } else {
        s.push(x)
    }
}

/// The set without `x`.
pub open spec fn set_del(s: Seq<Seq<char>>, x: Seq<char>) -> Seq<Seq<char>>
    decreases s.len(),
{
    if s.len() == 0 {
        s
    } else if s.last() == x {
        set_del(s.drop_last(), x)
    } else {
        set_del(s.drop_last(), x).push(s.last())
    }
}

proof fn lemma_key_pos_first<V>(m: Seq<(Seq<char>, V)>, k: Seq<char>, i: int)
    requires
        0 <= i < m.len(),
        m[i].0 == k,
        forall|j: int| 0 <= j < i ==> m[j].0 != k,
    ensures
        key_pos(m, k) == Some(i),
{
    let w = choose|w: int| 0 <= w < m.len() && m[w].0 == k && forall|j: int| 0 <= j < w ==> m[j].0 != k;
    assert(0 <= w < m.len() && m[w].0 == k && forall|j: int| 0 <= j < w ==> m[j].0 != k);
    if w < i {
        assert(m[w].0 != k);
    } else if w > i {
        assert(m[i].0 != k);
    }
}

/// Position of key `k` in the cooling table.
fn cooling_pos(m: &Vec<(String, u64)>, k: &str) -> (r: Option<usize>)
    ensures
        r matches Some(i) ==> key_pos(cooling_view(m@), k@) == Some(i as int) && i < m@.len(),
        r is None ==> key_pos(cooling_view(m@), k@) is None,
{
    let ghost v = cooling_view(m@);
    let mut i: usize = 0;
    while i < m.len()
        invariant
            i <= m@.len(),
            v == cooling_view(m@),
            forall|j: int| 0 <= j < i ==> v[j].0 != k@,
        decreases m@.len() - i,
    {
        if same_text(m[i].0.as_str(), k) {
            proof {
                lemma_key_pos_first(v, k@, i as int);
            }
            return Some(i);
        }
        i += 1;
    }
    None
}

/// Position of key `k` in the result table.
fn results_pos(m: &Vec<(String, String)>, k: &str) -> (r: Option<usize>)
    ensures
        r matches Some(i) ==> key_pos(results_view(m@), k@) == Some(i as int) && i < m@.len(),
        r is None ==> key_pos(results_view(m@), k@) is None,
{
    let ghost v = results_view(m@);
    let mut i: usize = 0;
    while i < m.len()
        invariant
            i <= m@.len(),
            v == results_view(m@),
            forall|j: int| 0 <= j < i ==> v[j].0 != k@,
        decreases m@.len() - i,
    {
        if same_text(m[i].0.as_str(), k) {
            proof {
                lemma_key_pos_first(v, k@, i as int);
            }
            return Some(i);
        }
        i += 1;
    }
    None
}

/// Maps `k` to `until` in the cooling table.
fn put_cooling(m: &mut Vec<(String, u64)>, k: &str, until: u64)
    ensures
        cooling_view(final(m)@) == put(cooling_view(old(m)@), k@, until),
{
    match cooling_pos(m, k) {
        Some(i) => {
            let key = k.to_owned();
            m.set(i, (key, until));
            assert(cooling_view(m@) =~= cooling_view(old(m)@).update(i as int, (k@, until)));
        },
        None => {
            let key = k.to_owned();
            m.push((key, until));
            assert(cooling_view(m@) =~= cooling_view(old(m)@).push((k@, until)));
        },
    }
}

/// Maps `k` to `v` in the result table.
fn put_result(m: &mut Vec<(String, String)>, k: &str, v: String)
    ensures
        results_view(final(m)@) == put(results_view(old(m)@), k@, v@),
{
    let ghost vv = v@;
    match results_pos(m, k) {
        Some(i) => {
            let key = k.to_owned();
            m.set(i, (key, v));
            assert(results_view(m@) =~= results_view(old(m)@).update(i as int, (k@, vv)));
        },
        None => {
            let key = k.to_owned();
            m.push((key, v));
            assert(results_view(m@) =~= results_view(old(m)@).push((k@, vv)));
        },
    }
}

/// Whether `x` is one of `s`.
fn has_name(s: &Vec<String>, x: &str) -> (r: bool)
    ensures
        r == views(s@).contains(x@),
{
    let mut i: usize = 0;
    while i < s.len()
        invariant
            i <= s@.len(),
            forall|j: int| 0 <= j < i ==> s@[j]@ != x@,
        decreases s@.len() - i,
    {
        if same_text(s[i].as_str(), x) {
            assert(views(s@)[i as int] == x@);
            return true;
        }
        i += 1;
    }
    assert forall|j: int| 0 <= j < views(s@).len() implies views(s@)[j] != x@ by {
        assert(views(s@)[j] == s@[j]@);
    }
    false
}

/// Adds `x` to the set `s`.
fn add_name(s: &mut Vec<String>, x: &str)
    ensures
        views(final(s)@) == set_add(views(old(s)@), x@),
{
    if !has_name(s, x) {
        let v = x.to_owned();
        s.push(v);
        assert(views(s@) =~= views(old(s)@).push(x@));
    }
}

/// Removes `x` from the set `s`.
fn del_name(s: &mut Vec<String>, x: &str)
    ensures
        views(final(s)@) == set_del(views(old(s)@), x@),
{
    let ghost orig = views(s@);
    let mut kept: Vec<String> = Vec::new();
    let mut i: usize = 0;
    assert(orig.take(0) =~= Seq::<Seq<char>>::empty());
    while i < s.len()
        invariant
            i <= s@.len(),
            orig == views(s@),
            views(kept@) == set_del(orig.take(i as int), x@),
        decreases s@.len() - i,
    {
        proof {
            let t = orig.take(i + 1);
            assert(t.drop_last() =~= orig.take(i as int));
            assert(t.last() == s@[i as int]@);
        }
        if !same_text(s[i].as_str(), x) {
            let ghost before = kept@;
            let c = s[i].clone();
            kept.push(c);
            assert(views(kept@) =~= views(before).push(c@));
        }
        i += 1;
    }
    assert(orig.take(i as int) =~= orig);
    *s = kept;
}


/// The first contact with this path.
pub open spec fn contact_pos(cs: Seq<ContactView>, path: Seq<char>) -> Option<int> {
    if exists|i: int| 0 <= i < cs.len() && cs[i].path == path {
        Some(choose|i: int| 0 <= i < cs.len() && cs[i].path == path && forall|j: int| 0 <= j < i ==> cs[j].path != path)
    } else {
        None
    }
}

/// The devices a contact fires, in device order.
pub open spec fn spec_targets(s: StateView, path: Seq<char>) -> Seq<Seq<char>> {
    match contact_pos(s.contacts, path) {
        Some(i) => keep_in(s.devices, s.contacts[i].routes),
        None => Seq::empty(),
    }
}

/// Whether some contact fires some device.
pub open spec fn spec_routed(s: StateView) -> bool {
    exists|i: int| 0 <= i < s.contacts.len() && spec_targets(s, s.contacts[i].path).len() > 0
}

/// The milliseconds a device still cools down at `now`, when any.
pub open spec fn spec_cooldown_left(s: StateView, device: Seq<char>, now: u64) -> Option<u64> {
    match lookup(s.cooling, device) {
        Some(until) => if until > now {
            Some((until - now) as u64)
        } else {
            None
        },
        None => None,
    }
}

/// Whether a device takes a pulse at `now`: not sending, not cooling down.
pub open spec fn spec_ready(s: StateView, device: Seq<char>, now: u64) -> bool {
    !s.busy.contains(device) && spec_cooldown_left(s, device, now) is None
}

proof fn lemma_contact_pos_first(cs: Seq<ContactView>, path: Seq<char>, i: int)
    requires
        0 <= i < cs.len(),
        cs[i].path == path,
        forall|j: int| 0 <= j < i ==> cs[j].path != path,
    ensures
        contact_pos(cs, path) == Some(i),
{
    let w = choose|w: int| 0 <= w < cs.len() && cs[w].path == path && forall|j: int| 0 <= j < w ==> cs[j].path != path;
    assert(0 <= w < cs.len() && cs[w].path == path && forall|j: int| 0 <= j < w ==> cs[j].path != path);
    if w < i {
        assert(cs[w].path != path);
    } else if w > i {
        assert(cs[i].path != path);
    }
}

impl State {
    /// The position of the contact with this path.
    pub fn contact_index(&self, path: &str) -> (r: Option<usize>)
        ensures
            r matches Some(i) ==> contact_pos(self@.contacts, path@) == Some(i as int) && i < self.contacts@.len(),
            r is None ==> contact_pos(self@.contacts, path@) is None,
    {
        let ghost cs = self@.contacts;
        let mut i: usize = 0;
        while i < self.contacts.len()
            invariant
                i <= self.contacts@.len(),
                cs == self@.contacts,
                forall|j: int| 0 <= j < i ==> cs[j].path != path@,
            decreases self.contacts@.len() - i,
        {
            if same_text(self.contacts[i].path.as_str(), path) {
                proof {
                    lemma_contact_pos_first(cs, path@, i as int);
                }
                return Some(i);
            }
            i += 1;
        }
        None
    }

    /// The devices the contact at `path` fires, in device order; none for an
    /// unknown contact.
    pub fn targets(&self, path: &str) -> (t: Vec<String>)
        ensures
            views(t@) == spec_targets(self@, path@),
    {
        match self.contact_index(path) {
            None => {
                let t: Vec<String> = Vec::new();
                assert(views(t@) =~= Seq::<Seq<char>>::empty());
                t
            },
            Some(ci) => {
                let ghost routes = views(self.contacts@[ci as int].routes@);
                assert(self@.contacts[ci as int].routes == routes);
                let mut t: Vec<String> = Vec::new();
                let mut i: usize = 0;
                let ghost ds = views(self.devices@);
                assert(ds.take(0) =~= Seq::<Seq<char>>::empty());
                while i < self.devices.len()
                    invariant
                        i <= self.devices@.len(),
                        ci < self.contacts@.len(),
                        ds == views(self.devices@),
                        routes == views(self.contacts@[ci as int].routes@),
                        views(t@) == keep_in(ds.take(i as int), routes),
                    decreases self.devices@.len() - i,
                {
                    proof {
                        let s = ds.take(i + 1);
                        assert(s.drop_last() =~= ds.take(i as int));
                        assert(s.last() == self.devices@[i as int]@);
                    }
                    if has_name(&self.contacts[ci].routes, self.devices[i].as_str()) {
                        let ghost before = t@;
                        let d = self.devices[i].clone();
                        t.push(d);
                        assert(views(t@) =~= views(before).push(d@));
                    }
                    i += 1;
                }
                assert(ds.take(i as int) =~= ds);
                t
            },
        }
    }

    /// Whether some contact fires some device.
    pub fn routed(&self) -> (r: bool)
        ensures
            r == spec_routed(self@),
    {
        let ghost v = self@;
        let mut i: usize = 0;
        while i < self.contacts.len()
            invariant
                i <= self.contacts@.len(),
                v == self@,
                v.contacts.len() == self.contacts@.len(),
                forall|j: int| 0 <= j < i ==> spec_targets(v, #[trigger] v.contacts[j].path).len() == 0,
            decreases self.contacts@.len() - i,
        {
            let t = self.targets(self.contacts[i].path.as_str());
            assert(v.contacts[i as int].path == self.contacts@[i as int].path@);
            if t.len() > 0 {
                return true;
            }
            i += 1;
        }
        false
    }

    /// Whether no pulse is being sent.
    pub fn idle(&self) -> (r: bool)
        ensures
            r == (self@.busy.len() == 0),
    {
        self.busy.len() == 0
    }

    /// Whether a pulse is being sent to `device`.
    pub fn sending(&self, device: &str) -> (r: bool)
        ensures
            r == self@.busy.contains(device@),
    {
        has_name(&self.busy, device)
    }

    /// The milliseconds `device` still cools down at `now`, when any.
    pub fn cooldown_left(&self, device: &str, now: u64) -> (r: Option<u64>)
        ensures
            r == spec_cooldown_left(self@, device@, now),
    {
        match cooling_pos(&self.cooling, device) {
            Some(i) => {
                let until = self.cooling[i].1;
                if until > now {
                    Some(until - now)
                } else {
                    None
                }
            },
            None => None,
        }
    }

    /// Whether `device` takes a pulse at `now`.
    pub fn ready(&self, device: &str, now: u64) -> (r: bool)
        ensures
            r == spec_ready(self@, device@, now),
    {
        !self.sending(device) && self.cooldown_left(device, now).is_none()
    }
}


/// A random number from 1 to `max`.
///
/// Calls `fastrand::u8(1..=max)`, which returns a value inside the range
/// and panics only on an empty one, which `requires` leaves out. Which
/// value comes back is left to chance.
#[verifier::external_body]
fn roll(max: u8) -> (r: u8)
    requires
        1 <= max,
    ensures
        1 <= r <= max,
{
    fastrand::u8(1..=max)
}

/// `x`, but at least 1.
pub open spec fn at_least_one(x: u8) -> u8 {
    if x < 1 {
        1
    } else {
        x
    }
}

/// Whether `p` is a pulse the settings allow: the chosen op; the chosen
/// intensity and duration, or, in random mode, values from 1 to them.
pub open spec fn pulse_ok(s: StateView, p: Pulse) -> bool {
    &&& p.op == s.op
    &&& if s.random {
        &&& 1 <= p.intensity <= at_least_one(s.intensity)
        &&& 1 <= p.duration <= at_least_one(s.duration)
    } else {
        &&& p.intensity == s.intensity
        &&& p.duration == s.duration
    }
}

/// The candidates that are ready at `now`, in order.
pub open spec fn ready_of(s: StateView, cands: Seq<Seq<char>>, now: u64) -> Seq<Seq<char>>
    decreases cands.len(),
{
    if cands.len() == 0 {
        cands
    } else if spec_ready(s, cands.last(), now) {
        ready_of(s, cands.drop_last(), now).push(cands.last())
    } else {
        ready_of(s, cands.drop_last(), now)
    }
}

/// The set with each of `xs` added, in order.
pub open spec fn add_all(set: Seq<Seq<char>>, xs: Seq<Seq<char>>) -> Seq<Seq<char>>
    decreases xs.len(),
{
    if xs.len() == 0 {
        set
    } else {
        set_add(add_all(set, xs.drop_last()), xs.last())
    }
}

/// The table with each of `xs` mapped to `v`, in order.
pub open spec fn put_all<V>(m: Seq<(Seq<char>, V)>, xs: Seq<Seq<char>>, v: V) -> Seq<(Seq<char>, V)>
    decreases xs.len(),
{
    if xs.len() == 0 {
        m
    } else {
        put(put_all(m, xs.drop_last(), v), xs.last(), v)
    }
}

/// The end of the hold a pulse puts on a device: its duration plus the
/// cooldown, in milliseconds from `now`, at most the clock's end.
pub open spec fn hold_until(s: StateView, p: Pulse, now: u64) -> u64 {
    let end = now + (p.duration + s.cooldown) * 1000;
    if end > u64::MAX {
        u64::MAX
    } else {
        end as u64
    }
}

/// The state with `devs` marked as sending and cooling down until `until`.
pub open spec fn reserved(s: StateView, devs: Seq<Seq<char>>, until: u64) -> StateView {
    StateView { busy: add_all(s.busy, devs), cooling: put_all(s.cooling, devs, until), ..s }
}

/// What reserving the candidates gives with pulse `p`: nothing when none is
/// ready, else the ready ones, held until `hold_until`.
pub open spec fn spec_reserve(s: StateView, cands: Seq<Seq<char>>, now: u64, p: Pulse) -> (StateView, Option<(Seq<Seq<char>>, Pulse)>) {
    let devs = ready_of(s, cands, now);
    if devs.len() == 0 {
        (s, None)
    } else {
        (reserved(s, devs, hold_until(s, p, now)), Some((devs, p)))
    }
}

/// A batch as plain values.
pub open spec fn batch_view(b: Option<Batch>) -> Option<(Seq<Seq<char>>, Pulse)> {
    match b {
        Some(b) => Some((views(b.devices@), b.pulse)),
        None => None,
    }
}

/// The pulse a batch carries, or any pulse for none.
pub open spec fn pulse_of(b: Option<Batch>) -> Pulse {
    match b {
        Some(b) => b.pulse,
        None => Pulse { op: 0, intensity: 0, duration: 0 },
    }
}

impl State {
    /// The pulse to send now: the settings, with intensity and duration
    /// rolled from 1 to their values in random mode.
    pub fn pulse(&self) -> (p: Pulse)
        ensures
            pulse_ok(self@, p),
    {
        Pulse {
            op: self.op,
            intensity: if self.random {
                roll(if self.intensity < 1 { 1 } else { self.intensity })
            } else {
                self.intensity
            },
            duration: if self.random {
                roll(if self.duration < 1 { 1 } else { self.duration })
            } else {
                self.duration
            },
        }
    }

    /// The candidates ready at `now`, in order.
    fn ready_candidates(&self, candidates: &Vec<String>, now: u64) -> (r: Vec<String>)
        ensures
            views(r@) == ready_of(self@, views(candidates@), now),
    {
        let ghost cs = views(candidates@);
        let mut r: Vec<String> = Vec::new();
        let mut i: usize = 0;
        assert(cs.take(0) =~= Seq::<Seq<char>>::empty());
        while i < candidates.len()
            invariant
                i <= candidates@.len(),
                cs == views(candidates@),
                views(r@) == ready_of(self@, cs.take(i as int), now),
            decreases candidates@.len() - i,
        {
            proof {
                let t = cs.take(i + 1);
                assert(t.drop_last() =~= cs.take(i as int));
                assert(t.last() == candidates@[i as int]@);
            }
            if self.ready(candidates[i].as_str(), now) {
                let ghost before = r@;
                let c = candidates[i].clone();
                r.push(c);
                assert(views(r@) =~= views(before).push(c@));
            }
            i += 1;
        }
        assert(cs.take(i as int) =~= cs);
        r
    }

    /// Marks `devs` as sending and cooling down until `until`.
    fn hold(&mut self, devs: &Vec<String>, until: u64)
        ensures
            final(self)@ == reserved(old(self)@, views(devs@), until),
    {
        let ghost ds = views(devs@);
        let mut j: usize = 0;
        assert(ds.take(0) =~= Seq::<Seq<char>>::empty());
        assert(self@ =~= reserved(old(self)@, ds.take(0), until));
        while j < devs.len()
            invariant
                j <= devs@.len(),
                ds == views(devs@),
                self@ == reserved(old(self)@, ds.take(j as int), until),
            decreases devs@.len() - j,
        {
            proof {
                let t = ds.take(j + 1);
                assert(t.drop_last() =~= ds.take(j as int));
                assert(t.last() == devs@[j as int]@);
            }
            add_name(&mut self.busy, devs[j].as_str());
            put_cooling(&mut self.cooling, devs[j].as_str(), until);
            j += 1;
            assert(self@ =~= reserved(old(self)@, ds.take(j as int), until));
        }
        assert(ds.take(j as int) =~= ds);
    }

    /// Takes the candidates that are ready at `now`: each is marked as
    /// sending and cooling down until the pulse and the cooldown are over.
    /// Nothing is taken, and nothing changes, when none is ready.
    fn reserve(&mut self, candidates: &Vec<String>, now: u64) -> (b: Option<Batch>)
        ensures
            b is Some ==> pulse_ok(old(self)@, pulse_of(b)),
            (final(self)@, batch_view(b)) == spec_reserve(old(self)@, views(candidates@), now, pulse_of(b)),
    {
        let devices = self.ready_candidates(candidates, now);
        if devices.len() == 0 {
            return None;
        }
        let pulse = self.pulse();
        let hold_ms = ((pulse.duration as u64) + (self.cooldown as u64)) * 1000;
        let until = now.saturating_add(hold_ms);
        self.hold(&devices, until);
        Some(Batch { devices, pulse })
    }

    /// Takes `device` for a test pulse at `now` when it is ready.
    pub fn test(&mut self, device: &str, now: u64) -> (b: Option<Batch>)
        ensures
            b is Some ==> pulse_ok(old(self)@, pulse_of(b)),
            (final(self)@, batch_view(b)) == spec_reserve(old(self)@, seq![device@], now, pulse_of(b)),
    {
        let mut one: Vec<String> = Vec::new();
        one.push(device.to_owned());
        assert(views(one@) =~= seq![device@]);
        self.reserve(&one, now)
    }
}


/// The outcome of a send: `None` when PiShock took it, else the error text.
pub open spec fn outcome_view(r: Result<(), String>) -> Option<Seq<char>> {
    match r {
        Ok(()) => None,
        Err(e) => Some(e@),
    }
}

/// What follows `sending ` in a result line, or nothing.
pub open spec fn sent_text(v: Option<Seq<char>>) -> Seq<char> {
    match v {
        Some(t) => if has_prefix(t, "sending "@) {
            t.subrange("sending "@.len() as int, t.len() as int)
        } else {
            Seq::empty()
        },
        None => Seq::empty(),
    }
}

/// The state once the send to `device` is over: the device is no longer
/// sending; its result line says what happened; a failure disarms.
pub open spec fn spec_finish(s: StateView, device: Seq<char>, outcome: Option<Seq<char>>) -> StateView {
    let s1 = StateView { busy: set_del(s.busy, device), ..s };
    match outcome {
        None => StateView {
            results: put(s1.results, device, "accepted "@ + sent_text(lookup(s1.results, device))),
            ..s1
        },
        Some(e) => StateView {
            armed: false,
            results: put(s1.results, device, e),
            status: device + " failed; output disarmed"@,
            ..s1
        },
    }
}

/// The state for a new device list: disarmed, and routes, results and
/// cooldowns of devices no longer listed dropped.
pub open spec fn spec_set_devices(s: StateView, ds: Seq<Seq<char>>) -> StateView {
    StateView {
        armed: false,
        contacts: s.contacts.map_values(|c: ContactView| ContactView { routes: keep_in(c.routes, ds), ..c }),
        results: keep_keys(s.results, ds),
        cooling: keep_keys(s.cooling, ds),
        devices: ds,
        ..s
    }
}

/// The state with all contacts forgotten, disarmed.
pub open spec fn spec_reset(s: StateView) -> StateView {
    StateView { armed: false, contacts: Seq::empty(), ..s }
}

/// A copy of a list of names.
fn clone_names(v: &Vec<String>) -> (r: Vec<String>)
    ensures
        views(r@) == views(v@),
{
    let mut r: Vec<String> = Vec::new();
    let mut i: usize = 0;
    while i < v.len()
        invariant
            i <= v@.len(),
            views(r@) == views(v@).take(i as int),
        decreases v@.len() - i,
    {
        let ghost before = r@;
        let c = v[i].clone();
        r.push(c);
        assert(views(r@) =~= views(before).push(c@));
        assert(views(v@).take(i + 1) =~= views(v@).take(i as int).push(v@[i as int]@));
        i += 1;
    }
    assert(views(v@).take(i as int) =~= views(v@));
    r
}

/// The names of `s` that are in `keys`, in order.
fn names_in(s: &Vec<String>, keys: &Vec<String>) -> (r: Vec<String>)
    ensures
        views(r@) == keep_in(views(s@), views(keys@)),
{
    let ghost sv = views(s@);
    let mut r: Vec<String> = Vec::new();
    let mut i: usize = 0;
    assert(sv.take(0) =~= Seq::<Seq<char>>::empty());
    while i < s.len()
        invariant
            i <= s@.len(),
            sv == views(s@),
            views(r@) == keep_in(sv.take(i as int), views(keys@)),
        decreases s@.len() - i,
    {
        proof {
            let t = sv.take(i + 1);
            assert(t.drop_last() =~= sv.take(i as int));
            assert(t.last() == s@[i as int]@);
        }
        if has_name(keys, s[i].as_str()) {
            let ghost before = r@;
            let c = s[i].clone();
            r.push(c);
            assert(views(r@) =~= views(before).push(c@));
        }
        i += 1;
    }
    assert(sv.take(i as int) =~= sv);
    r
}

impl State {
    /// Marks the send to `device` as over with its outcome.
    pub fn finish(&mut self, device: &str, result: Result<(), String>)
        ensures
            final(self)@ == spec_finish(old(self)@, device@, outcome_view(result)),
    {
        let ghost s1 = StateView { busy: set_del(old(self)@.busy, device@), ..old(self)@ };
        del_name(&mut self.busy, device);
        assert(self@ =~= s1);
        match result {
            Ok(()) => {
                let mut line = "accepted ".to_owned();
                match results_pos(&self.results, device) {
                    Some(i) => {
                        let prev = crate::text::chars_of(self.results[i].1.as_str());
                        let tag = crate::text::chars_of("sending ");
                        if crate::text::occurs_at_exec(&prev, &tag, 0) {
                            crate::text::append_chars(&mut line, &prev, tag.len(), prev.len());
                            assert(prev@.subrange(0, tag@.len() as int) == tag@);
                        } else {
                            assert(line@ =~= line@ + Seq::<char>::empty());
                        }
                    },
                    None => {
                        assert(line@ =~= line@ + Seq::<char>::empty());
                    },
                }
                put_result(&mut self.results, device, line);
            },
            Err(error) => {
                self.armed = false;
                put_result(&mut self.results, device, error);
                let mut status = device.to_owned();
                status.append(" failed; output disarmed");
                self.status = status;
            },
        }
        assert(self@ =~= spec_finish(old(self)@, device@, outcome_view(result)));
    }

    /// Replaces the device list: disarms, and drops routes, results and
    /// cooldowns of devices no longer listed.
    pub fn set_devices(&mut self, devices: Vec<String>)
        ensures
            final(self)@ == spec_set_devices(old(self)@, views(devices@)),
    {
        self.armed = false;
        let ghost ds = views(devices@);
        let ghost want = old(self)@.contacts.map_values(|c: ContactView| ContactView { routes: keep_in(c.routes, ds), ..c });
        let mut contacts: Vec<Contact> = Vec::new();
        let mut i: usize = 0;
        while i < self.contacts.len()
            invariant
                i <= self.contacts@.len(),
                self.contacts@ == old(self).contacts@,
                ds == views(devices@),
                want == old(self)@.contacts.map_values(|c: ContactView| ContactView { routes: keep_in(c.routes, ds), ..c }),
                contacts_view(contacts@) == want.take(i as int),
            decreases self.contacts@.len() - i,
        {
            let c = &self.contacts[i];
            let fresh = Contact {
                path: c.path.clone(),
                bits: c.bits,
                high: c.high,
                routes: names_in(&c.routes, &devices),
                last_live: c.last_live,
            };
            let ghost before = contacts@;
            contacts.push(fresh);
            assert(contacts_view(contacts@) =~= contacts_view(before).push(contact_view(fresh)));
            assert(want.take(i + 1) =~= want.take(i as int).push(want[i as int]));
            i += 1;
        }
        assert(want.take(i as int) =~= want);
        self.contacts = contacts;
        self.results = keep_results(&self.results, &devices);
        self.cooling = keep_cooling(&self.cooling, &devices);
        self.devices = devices;
        assert(self@ =~= spec_set_devices(old(self)@, ds));
    }

    /// Forgets all contacts and disarms.
    pub fn reset(&mut self)
        ensures
            final(self)@ == spec_reset(old(self)@),
    {
        self.armed = false;
        self.contacts.clear();
        assert(self@ =~= spec_reset(old(self)@));
    }
}

/// The result lines of devices in `keys`, in order.
fn keep_results(m: &Vec<(String, String)>, keys: &Vec<String>) -> (r: Vec<(String, String)>)
    ensures
        results_view(r@) == keep_keys(results_view(m@), views(keys@)),
{
    let ghost mv = results_view(m@);
    let mut r: Vec<(String, String)> = Vec::new();
    let mut i: usize = 0;
    assert(mv.take(0) =~= Seq::<(Seq<char>, Seq<char>)>::empty());
    while i < m.len()
        invariant
            i <= m@.len(),
            mv == results_view(m@),
            results_view(r@) == keep_keys(mv.take(i as int), views(keys@)),
        decreases m@.len() - i,
    {
        proof {
            let t = mv.take(i + 1);
            assert(t.drop_last() =~= mv.take(i as int));
            assert(t.last() == (m@[i as int].0@, m@[i as int].1@));
        }
        if has_name(keys, m[i].0.as_str()) {
            let ghost before = r@;
            let e = (m[i].0.clone(), m[i].1.clone());
            r.push(e);
            assert(results_view(r@) =~= results_view(before).push((e.0@, e.1@)));
        }
        i += 1;
    }
    assert(mv.take(i as int) =~= mv);
    r
}

/// The cooldowns of devices in `keys`, in order.
fn keep_cooling(m: &Vec<(String, u64)>, keys: &Vec<String>) -> (r: Vec<(String, u64)>)
    ensures
        cooling_view(r@) == keep_keys(cooling_view(m@), views(keys@)),
{
    let ghost mv = cooling_view(m@);
    let mut r: Vec<(String, u64)> = Vec::new();
    let mut i: usize = 0;
    assert(mv.take(0) =~= Seq::<(Seq<char>, u64)>::empty());
    while i < m.len()
        invariant
            i <= m@.len(),
            mv == cooling_view(m@),
            cooling_view(r@) == keep_keys(mv.take(i as int), views(keys@)),
        decreases m@.len() - i,
    {
        proof {
            let t = mv.take(i + 1);
            assert(t.drop_last() =~= mv.take(i as int));
            assert(t.last() == (m@[i as int].0@, m@[i as int].1));
        }
        if has_name(keys, m[i].0.as_str()) {
            let ghost before = r@;
            let e = (m[i].0.clone(), m[i].1);
            r.push(e);
            assert(cooling_view(r@) =~= cooling_view(before).push((e.0@, e.1)));
        }
        i += 1;
    }
    assert(mv.take(i as int) =~= mv);
    r
}


/// The paths of contact parameters begin with this.
pub open spec fn contact_prefix() -> Seq<char> {
    "/avatar/parameters/SHK"@
}

/// The paths of avatar parameters begin with this.
pub open spec fn params_prefix() -> Seq<char> {
    "/avatar/parameters/"@
}

/// The name a contact is shown with: its path without `/avatar/parameters/`.
pub open spec fn contact_name(path: Seq<char>) -> Seq<char> {
    path.subrange(params_prefix().len() as int, path.len() as int)
}

/// Whether the contact at `path` was above the threshold.
pub open spec fn was_high(s: StateView, path: Seq<char>) -> bool {
    match contact_pos(s.contacts, path) {
        Some(i) => s.contacts[i].high,
        None => false,
    }
}

/// The state with the new value of the contact at `path` recorded; an
/// unknown contact is added, unrouted.
pub open spec fn spec_record(s: StateView, path: Seq<char>, bits: u64, high: bool, live: bool, now: u64) -> StateView {
    StateView {
        contacts: match contact_pos(s.contacts, path) {
            Some(i) => s.contacts.update(
                i,
                ContactView {
                    bits,
                    high,
                    last_live: if live {
                        Some(now)
                    } else {
                        s.contacts[i].last_live
                    },
                    ..s.contacts[i]
                },
            ),
            None => s.contacts.push(
                ContactView {
                    path,
                    bits,
                    high,
                    routes: Seq::empty(),
                    last_live: if live {
                        Some(now)
                    } else {
                        None
                    },
                },
            ),
        },
        ..s
    }
}

/// Whole seconds, rounded up past the current one, of an optional wait.
pub open spec fn wait_secs(left: Option<u64>) -> nat {
    match left {
        Some(ms) => (ms / 1000 + 1) as nat,
        None => 0,
    }
}

/// Why a target does not take a pulse: it is sending, or cooling down.
pub open spec fn waiting_line(s: StateView, d: Seq<char>, now: u64) -> Seq<char> {
    if s.busy.contains(d) {
        d + " sending"@
    } else {
        d + " cooling down "@ + decimal(wait_secs(spec_cooldown_left(s, d, now))) + "s"@
    }
}

/// Why each target does not take a pulse.
pub open spec fn waiting(s: StateView, t: Seq<Seq<char>>, now: u64) -> Seq<Seq<char>> {
    Seq::new(t.len(), |k: int| waiting_line(s, t[k], now))
}

/// What a new contact value does. A contact fires when a live value goes
/// from at most 0.5 to above it; it then takes the ready devices it is
/// routed to, provided it is routed, the output is armed and VRChat is
/// connected. Otherwise the status says why nothing was sent.
pub open spec fn spec_update(s: StateView, path: Seq<char>, bits: u64, high: bool, live: bool, now: u64, p: Pulse) -> (StateView, Option<(Seq<Seq<char>>, Pulse)>) {
    if !has_prefix(path, contact_prefix()) {
        (s, None)
    } else {
        let rising = !was_high(s, path) && high;
        let s1 = spec_record(s, path, bits, high, live, now);
        if !(live && rising) {
            (s1, None)
        } else {
            let name = contact_name(path);
            let t = spec_targets(s1, path);
            if t.len() == 0 {
                (StateView { status: name + ": contact not routed"@, ..s1 }, None)
            } else if !s1.armed {
                (StateView { status: name + ": output disarmed"@, ..s1 }, None)
            } else if !s1.connected {
                (StateView { status: name + ": VRChat not connected"@, ..s1 }, None)
            } else {
                let r = spec_reserve(s1, t, now, p);
                if r.1 is None {
                    (StateView { status: name + ": "@ + join(waiting(s1, t, now), ", "@), ..r.0 }, None)
                } else {
                    r
                }
            }
        }
    }
}

proof fn lemma_prefixes()
    ensures
        has_prefix(contact_prefix(), params_prefix()),
{
    reveal_strlit("/avatar/parameters/SHK");
    reveal_strlit("/avatar/parameters/");
    assert(contact_prefix().subrange(0, params_prefix().len() as int) =~= params_prefix());
}

/// Whether `path` names a contact parameter.
pub fn is_contact_path(path: &str) -> (r: bool)
    ensures
        r == has_prefix(path@, contact_prefix()),
{
    starts_with(path, "/avatar/parameters/SHK")
}

/// The name a contact is shown with.
pub fn contact_label(path: &str) -> (name: String)
    requires
        has_prefix(path@, contact_prefix()),
    ensures
        name@ == contact_name(path@),
{
    proof {
        lemma_prefixes();
    }
    let chars = crate::text::chars_of(path);
    let base = crate::text::chars_of("/avatar/parameters/");
    crate::text::string_of(&chars, base.len(), chars.len())
}

impl State {
    /// Records a new value of the contact at `path`; returns whether it was
    /// above the threshold before.
    fn record(&mut self, path: &str, bits: u64, high: bool, live: bool, now: u64) -> (was: bool)
        ensures
            was == was_high(old(self)@, path@),
            final(self)@ == spec_record(old(self)@, path@, bits, high, live, now),
    {
        match self.contact_index(path) {
            Some(i) => {
                let was = self.contacts[i].high;
                let c = &self.contacts[i];
                let fresh = Contact {
                    path: c.path.clone(),
                    bits,
                    high,
                    routes: clone_names(&c.routes),
                    last_live: if live {
                        Some(now)
                    } else {
                        c.last_live
                    },
                };
                let ghost fv = contact_view(fresh);
                self.contacts.set(i, fresh);
                assert(contacts_view(self.contacts@) =~= contacts_view(old(self).contacts@).update(i as int, fv));
                assert(self@ =~= spec_record(old(self)@, path@, bits, high, live, now));
                was
            },
            None => {
                let fresh = Contact {
                    path: path.to_owned(),
                    bits,
                    high,
                    routes: Vec::new(),
                    last_live: if live {
                        Some(now)
                    } else {
                        None
                    },
                };
                let ghost fv = contact_view(fresh);
                self.contacts.push(fresh);
                assert(views(fresh.routes@) =~= Seq::<Seq<char>>::empty());
                assert(contacts_view(self.contacts@) =~= contacts_view(old(self).contacts@).push(fv));
                assert(self@ =~= spec_record(old(self)@, path@, bits, high, live, now));
                false
            },
        }
    }

    /// Why each target does not take a pulse at `now`.
    fn waiting_lines(&self, targets: &Vec<String>, now: u64) -> (r: Vec<String>)
        ensures
            views(r@) == waiting(self@, views(targets@), now),
    {
        let ghost want = waiting(self@, views(targets@), now);
        let mut r: Vec<String> = Vec::new();
        let mut i: usize = 0;
        while i < targets.len()
            invariant
                i <= targets@.len(),
                want == waiting(self@, views(targets@), now),
                views(r@) == want.take(i as int),
            decreases targets@.len() - i,
        {
            let d = targets[i].as_str();
            let mut line = d.to_owned();
            if self.sending(d) {
                line.append(" sending");
            } else {
                line.append(" cooling down ");
                let secs = match self.cooldown_left(d, now) {
                    Some(ms) => ms / 1000 + 1,
                    None => 0,
                };
                let digits = decimal_exec(secs);
                line.append(digits.as_str());
                line.append("s");
            }
            let ghost before = r@;
            r.push(line);
            assert(views(r@) =~= views(before).push(line@));
            assert(want.take(i + 1) =~= want.take(i as int).push(want[i as int]));
            i += 1;
        }
        assert(want.take(i as int) =~= want);
        r
    }

    /// Takes the contact's targets after a rising live value.
    fn fire(&mut self, path: &str, now: u64) -> (b: Option<Batch>)
        requires
            has_prefix(path@, contact_prefix()),
        ensures
            b is Some ==> pulse_ok(old(self)@, pulse_of(b)),
            (final(self)@, batch_view(b)) == ({
                let s1 = old(self)@;
                let name = contact_name(path@);
                let t = spec_targets(s1, path@);
                if t.len() == 0 {
                    (StateView { status: name + ": contact not routed"@, ..s1 }, None)
                } else if !s1.armed {
                    (StateView { status: name + ": output disarmed"@, ..s1 }, None)
                } else if !s1.connected {
                    (StateView { status: name + ": VRChat not connected"@, ..s1 }, None)
                } else {
                    let r = spec_reserve(s1, t, now, pulse_of(b));
                    if r.1 is None {
                        (StateView { status: name + ": "@ + join(waiting(s1, t, now), ", "@), ..r.0 }, None)
                    } else {
                        r
                    }
                }
            }),
    {
        let name = contact_label(path);
        let targets = self.targets(path);
        if targets.len() == 0 {
            let mut status = name;
            status.append(": contact not routed");
            self.status = status;
            assert(self@ =~= StateView { status: contact_name(path@) + ": contact not routed"@, ..old(self)@ });
            return None;
        }
        if !self.armed {
            let mut status = name;
            status.append(": output disarmed");
            self.status = status;
            assert(self@ =~= StateView { status: contact_name(path@) + ": output disarmed"@, ..old(self)@ });
            return None;
        }
        if !self.connected {
            let mut status = name;
            status.append(": VRChat not connected");
            self.status = status;
            assert(self@ =~= StateView { status: contact_name(path@) + ": VRChat not connected"@, ..old(self)@ });
            return None;
        }
        let lines = self.waiting_lines(&targets, now);
        let batch = self.reserve(&targets, now);
        if batch.is_none() {
            let mut status = name;
            status.append(": ");
            let joined = join_exec(&lines, ", ");
            status.append(joined.as_str());
            self.status = status;
        }
        batch
    }

    /// Takes a new value of the contact at `path` (bits of an `f64`, and
    /// whether it is above 0.5). A live value that rises above 0.5 fires the
    /// contact: the ready devices it is routed to are returned and held, if
    /// it is routed, armed and connected; else the status says why not.
    pub fn update(&mut self, path: &str, bits: u64, high: bool, live: bool, now: u64) -> (b: Option<Batch>)
        ensures
            b is Some ==> pulse_ok(old(self)@, pulse_of(b)),
            (final(self)@, batch_view(b)) == spec_update(old(self)@, path@, bits, high, live, now, pulse_of(b)),
    {
        if !is_contact_path(path) {
            return None;
        }
        let was = self.record(path, bits, high, live, now);
        let rising = !was && high;
        if !(live && rising) {
            return None;
        }
        self.fire(path, now)
    }
}


/// A reading as plain values: (path, bits, above the threshold).
pub open spec fn readings_view(rs: Seq<Reading>) -> Seq<(Seq<char>, u64, bool)> {
    rs.map_values(|r: Reading| (r.path@, r.bits, r.high))
}

/// Whether a snapshot value is older than the contact's last live value.
pub open spec fn stale(s: StateView, path: Seq<char>, started: u64) -> bool {
    match contact_pos(s.contacts, path) {
        Some(i) => match s.contacts[i].last_live {
            Some(t) => t > started,
            None => false,
        },
        None => false,
    }
}

/// The pulse no snapshot value uses.
pub open spec fn no_pulse() -> Pulse {
    Pulse { op: 0, intensity: 0, duration: 0 }
}

/// The state once a snapshot taken at `started` is recorded: each value is
/// recorded as not live, unless a live value came after `started`.
pub open spec fn spec_snapshot(s: StateView, rs: Seq<(Seq<char>, u64, bool)>, started: u64) -> StateView
    decreases rs.len(),
{
    if rs.len() == 0 {
        s
    } else {
        let s0 = spec_snapshot(s, rs.drop_last(), started);
        let r = rs.last();
        if stale(s0, r.0, started) {
            s0
        } else {
            spec_update(s0, r.0, r.1, r.2, false, 0, no_pulse()).0
        }
    }
}

/// The state after a connection report.
pub open spec fn spec_connection(s: StateView, connected: bool) -> StateView {
    let s1 = if s.connected && !connected {
        StateView { status: "VRChat disconnected; output disarmed"@, ..spec_reset(s) }
    } else if !s.connected && connected {
        StateView { status: "VRChat connected; route contacts to devices"@, ..s }
    } else {
        s
    };
    StateView { connected, ..s1 }
}

/// The name of an op.
pub open spec fn mode_name(op: u8) -> Seq<char> {
    if op == 0 {
        "SHOCK"@
    } else if op == 1 {
        "VIBRATE"@
    } else {
        "BEEP"@
    }
}

/// A pulse as shown: `BEEP (1s)`, or the mode with intensity and duration,
/// as in `SHOCK (50%, 2s)`.
pub open spec fn spec_describe(p: Pulse) -> Seq<char> {
    if p.op == 2 {
        mode_name(p.op) + " ("@ + decimal(p.duration as nat) + "s)"@
    } else {
        mode_name(p.op) + " ("@ + decimal(p.intensity as nat) + "%, "@ + decimal(p.duration as nat)
            + "s)"@
    }
}

/// The set with each of `xs` removed.
pub open spec fn del_all(set: Seq<Seq<char>>, xs: Seq<Seq<char>>) -> Seq<Seq<char>>
    decreases xs.len(),
{
    if xs.len() == 0 {
        set
    } else {
        set_del(del_all(set, xs.drop_last()), xs.last())
    }
}

/// The state once a batch is dropped for want of credentials: its devices
/// are free again, results are cleared, output is disarmed.
pub open spec fn spec_discard(s: StateView, devs: Seq<Seq<char>>) -> StateView {
    StateView { busy: del_all(s.busy, devs), results: Seq::empty(), armed: false, ..s }
}

/// The state once a batch from `source` goes out: the status says what is
/// sent where, and each device's result line says it is being sent.
pub open spec fn spec_announce(s: StateView, source: Seq<char>, devs: Seq<Seq<char>>, p: Pulse) -> StateView {
    StateView {
        status: source + ": sending "@ + spec_describe(p) + " to "@ + join(devs, ", "@) + if s.random {
            " (random)"@
        } else {
            Seq::empty()
        },
        results: put_all(s.results, devs, "sending "@ + spec_describe(p)),
        ..s
    }
}

/// The state with `device` added to or removed from the routes of the
/// contact at `path`, disarmed; unchanged for an unknown contact.
pub open spec fn spec_toggle_route(s: StateView, path: Seq<char>, device: Seq<char>) -> StateView {
    match contact_pos(s.contacts, path) {
        Some(i) => {
            let c = s.contacts[i];
            let routes = if c.routes.contains(device) {
                set_del(c.routes, device)
            } else {
                set_add(c.routes, device)
            };
            StateView { armed: false, contacts: s.contacts.update(i, ContactView { routes, ..c }), ..s }
        },
        None => s,
    }
}

/// The starting state: nothing known, disarmed, a 5% beep of one second
/// with a one-second cooldown selected.
pub open spec fn initial_state() -> StateView {
    StateView {
        contacts: Seq::empty(),
        devices: Seq::empty(),
        armed: false,
        connected: false,
        busy: Seq::empty(),
        cooling: Seq::empty(),
        op: 2,
        intensity: 5,
        duration: 1,
        cooldown: 1,
        random: false,
        status: "Waiting for VRChat"@,
        osc_packets: 0,
        results: Seq::empty(),
    }
}

/// The name of an op, as shown.
pub fn mode(op: u8) -> (m: &'static str)
    ensures
        m@ == mode_name(op),
{
    if op == 0 {
        "SHOCK"
    } else if op == 1 {
        "VIBRATE"
    } else {
        "BEEP"
    }
}

/// A pulse as shown, such as `BEEP (1s)` or `SHOCK (50%, 2s)`.
pub fn describe(pulse: Pulse) -> (d: String)
    ensures
        d@ == spec_describe(pulse),
{
    let mut d = mode(pulse.op).to_owned();
    d.append(" (");
    if pulse.op != 2 {
        let n = decimal_exec(pulse.intensity as u64);
        d.append(n.as_str());
        d.append("%, ");
    }
    let n = decimal_exec(pulse.duration as u64);
    d.append(n.as_str());
    d.append("s)");
    d
}

impl State {
    /// The starting state: nothing known, disarmed, a 5% beep of one
    /// second with a one-second cooldown selected.
    pub fn new() -> (s: State)
        ensures
            s@ == initial_state(),
    {
        let s = State {
            contacts: Vec::new(),
            devices: Vec::new(),
            armed: false,
            connected: false,
            busy: Vec::new(),
            cooling: Vec::new(),
            op: 2,
            intensity: 5,
            duration: 1,
            cooldown: 1,
            random: false,
            status: "Waiting for VRChat".to_owned(),
            osc_packets: 0,
            results: Vec::new(),
        };
        assert(contacts_view(s.contacts@) =~= Seq::<ContactView>::empty());
        assert(views(s.devices@) =~= Seq::<Seq<char>>::empty());
        assert(views(s.busy@) =~= Seq::<Seq<char>>::empty());
        assert(cooling_view(s.cooling@) =~= Seq::<(Seq<char>, u64)>::empty());
        assert(results_view(s.results@) =~= Seq::<(Seq<char>, Seq<char>)>::empty());
        s
    }

    /// Records the values of a parameter tree read at `started`. A value is
    /// skipped when a live value for the contact arrived after `started`.
    pub fn snapshot(&mut self, readings: Vec<Reading>, started: u64)
        ensures
            final(self)@ == spec_snapshot(old(self)@, readings_view(readings@), started),
    {
        let ghost rs = readings_view(readings@);
        let mut i: usize = 0;
        assert(rs.take(0) =~= Seq::<(Seq<char>, u64, bool)>::empty());
        while i < readings.len()
            invariant
                i <= readings@.len(),
                rs == readings_view(readings@),
                self@ == spec_snapshot(old(self)@, rs.take(i as int), started),
            decreases readings@.len() - i,
        {
            proof {
                let t = rs.take(i + 1);
                assert(t.drop_last() =~= rs.take(i as int));
                assert(t.last() == (readings@[i as int].path@, readings@[i as int].bits, readings@[i as int].high));
            }
            let r = &readings[i];
            let skip = match self.contact_index(r.path.as_str()) {
                Some(ci) => match self.contacts[ci].last_live {
                    Some(t) => t > started,
                    None => false,
                },
                None => false,
            };
            if !skip {
                let _ = self.update(r.path.as_str(), r.bits, r.high, false, 0);
            }
            i += 1;
        }
        assert(rs.take(i as int) =~= rs);
    }

    /// Counts one OSC packet.
    pub fn traffic(&mut self)
        requires
            old(self).osc_packets < u64::MAX,
        ensures
            final(self)@ == (StateView { osc_packets: (old(self).osc_packets + 1) as u64, ..old(self)@ }),
    {
        self.osc_packets = self.osc_packets + 1;
        assert(self@ =~= StateView { osc_packets: (old(self).osc_packets + 1) as u64, ..old(self)@ });
    }

    /// Takes a report of whether VRChat is connected. Losing the connection
    /// forgets the contacts and disarms.
    pub fn connection(&mut self, connected: bool)
        ensures
            final(self)@ == spec_connection(old(self)@, connected),
    {
        if self.connected && !connected {
            self.reset();
            self.status = "VRChat disconnected; output disarmed".to_owned();
        }
        if !self.connected && connected {
            self.status = "VRChat connected; route contacts to devices".to_owned();
        }
        self.connected = connected;
        assert(self@ =~= spec_connection(old(self)@, connected));
    }

    /// Takes an avatar change: the contacts are forgotten, output disarmed.
    pub fn avatar_changed(&mut self)
        ensures
            final(self)@ == (StateView { status: "Avatar changed; output disarmed"@, ..spec_reset(old(self)@) }),
    {
        self.reset();
        self.status = "Avatar changed; output disarmed".to_owned();
        assert(self@ =~= StateView { status: "Avatar changed; output disarmed"@, ..spec_reset(old(self)@) });
    }

    /// Takes a network error: it becomes the status, output is disarmed.
    pub fn network_error(&mut self, error: String)
        ensures
            final(self)@ == (StateView { status: error@, armed: false, ..old(self)@ }),
    {
        self.status = error;
        self.armed = false;
        assert(self@ =~= StateView { status: error@, armed: false, ..old(self)@ });
    }

    /// Drops a batch that cannot be sent for want of credentials.
    pub fn discard(&mut self, batch: &Batch)
        ensures
            final(self)@ == spec_discard(old(self)@, views(batch.devices@)),
    {
        let ghost ds = views(batch.devices@);
        let mut j: usize = 0;
        assert(ds.take(0) =~= Seq::<Seq<char>>::empty());
        while j < batch.devices.len()
            invariant
                j <= batch.devices@.len(),
                ds == views(batch.devices@),
                self@ == (StateView { busy: del_all(old(self)@.busy, ds.take(j as int)), ..old(self)@ }),
            decreases batch.devices@.len() - j,
        {
            proof {
                let t = ds.take(j + 1);
                assert(t.drop_last() =~= ds.take(j as int));
                assert(t.last() == batch.devices@[j as int]@);
            }
            del_name(&mut self.busy, batch.devices[j].as_str());
            j += 1;
            assert(self@ =~= StateView { busy: del_all(old(self)@.busy, ds.take(j as int)), ..old(self)@ });
        }
        assert(ds.take(j as int) =~= ds);
        self.results.clear();
        self.armed = false;
        assert(self@ =~= spec_discard(old(self)@, ds));
    }

    /// Notes that a batch from `source` is being sent.
    pub fn announce(&mut self, source: &str, batch: &Batch)
        ensures
            final(self)@ == spec_announce(old(self)@, source@, views(batch.devices@), batch.pulse),
    {
        let what = describe(batch.pulse);
        let mut status = source.to_owned();
        status.append(": sending ");
        status.append(what.as_str());
        status.append(" to ");
        let joined = join_exec(&batch.devices, ", ");
        status.append(joined.as_str());
        if self.random {
            status.append(" (random)");
        } else {
            assert(status@ =~= status@ + Seq::<char>::empty());
        }
        let mut line = "sending ".to_owned();
        line.append(what.as_str());
        let ghost ds = views(batch.devices@);
        let mut j: usize = 0;
        assert(ds.take(0) =~= Seq::<Seq<char>>::empty());
        while j < batch.devices.len()
            invariant
                j <= batch.devices@.len(),
                ds == views(batch.devices@),
                line@ == "sending "@ + spec_describe(batch.pulse),
                self@ == (StateView { results: put_all(old(self)@.results, ds.take(j as int), line@), ..old(self)@ }),
            decreases batch.devices@.len() - j,
        {
            proof {
                let t = ds.take(j + 1);
                assert(t.drop_last() =~= ds.take(j as int));
                assert(t.last() == batch.devices@[j as int]@);
            }
            put_result(&mut self.results, batch.devices[j].as_str(), line.clone());
            j += 1;
            assert(self@ =~= StateView { results: put_all(old(self)@.results, ds.take(j as int), line@), ..old(self)@ });
        }
        assert(ds.take(j as int) =~= ds);
        self.status = status;
        assert(self@ =~= spec_announce(old(self)@, source@, ds, batch.pulse));
    }

    /// Adds `device` to, or removes it from, the routes of the contact at
    /// `path`, and disarms; nothing changes for an unknown contact.
    pub fn toggle_route(&mut self, path: &str, device: &str)
        ensures
            final(self)@ == spec_toggle_route(old(self)@, path@, device@),
    {
        match self.contact_index(path) {
            None => {},
            Some(i) => {
                let c = &self.contacts[i];
                let mut routes = clone_names(&c.routes);
                if has_name(&routes, device) {
                    del_name(&mut routes, device);
                } else {
                    add_name(&mut routes, device);
                }
                let fresh = Contact {
                    path: c.path.clone(),
                    bits: c.bits,
                    high: c.high,
                    routes,
                    last_live: c.last_live,
                };
                let ghost fv = contact_view(fresh);
                self.contacts.set(i, fresh);
                self.armed = false;
                assert(contacts_view(self.contacts@) =~= contacts_view(old(self).contacts@).update(i as int, fv));
                assert(self@ =~= spec_toggle_route(old(self)@, path@, device@));
            },
        }
    }

    /// Whether output can be armed: credentials are loaded, VRChat is
    /// connected and some contact is routed.
    pub fn can_arm(&self, has_api: bool) -> (r: bool)
        ensures
            r == (has_api && self@.connected && spec_routed(self@)),
    {
        has_api && self.connected && self.routed()
    }
}

/// The state after the arm button: armed output is disarmed; disarmed
/// output is armed only when it can be (credentials, VRChat, a route).
pub open spec fn spec_toggle_arm(s: StateView, has_api: bool) -> StateView {
    if s.armed {
        StateView { armed: false, ..s }
    } else if has_api && s.connected && spec_routed(s) {
        StateView { armed: true, ..s }
    } else {
        s
    }
}

/// The state with the given action settings; any change disarms.
pub open spec fn spec_settings(s: StateView, op: u8, intensity: u8, duration: u8, cooldown: u8, random: bool) -> StateView {
    if s.op == op && s.intensity == intensity && s.duration == duration && s.cooldown == cooldown && s.random == random {
        s
    } else {
        StateView { op, intensity, duration, cooldown, random, armed: false, ..s }
    }
}

impl State {
    /// The arm button: disarms armed output, and arms disarmed output when
    /// `can_arm` allows it.
    pub fn toggle_arm(&mut self, has_api: bool)
        ensures
            final(self)@ == spec_toggle_arm(old(self)@, has_api),
    {
        if self.armed {
            self.armed = false;
        } else if self.can_arm(has_api) {
            self.armed = true;
        }
    }

    /// Disarms output.
    pub fn disarm(&mut self)
        ensures
            final(self)@ == (StateView { armed: false, ..old(self)@ }),
    {
        self.armed = false;
    }

    /// Takes the action settings: op, intensity, seconds, cooldown and
    /// random mode. Any change disarms.
    pub fn apply_settings(&mut self, op: u8, intensity: u8, duration: u8, cooldown: u8, random: bool)
        ensures
            final(self)@ == spec_settings(old(self)@, op, intensity, duration, cooldown, random),
    {
        if !(self.op == op && self.intensity == intensity && self.duration == duration && self.cooldown == cooldown
            && self.random == random) {
            self.op = op;
            self.intensity = intensity;
            self.duration = duration;
            self.cooldown = cooldown;
            self.random = random;
            self.armed = false;
        }
    }
}

impl Default for State {
    fn default() -> (s: State)
        ensures
            s@ == initial_state(),
    {
        State::new()
    }
}

} // verus!
