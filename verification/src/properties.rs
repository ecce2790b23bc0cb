//! Properties the bridge keeps across calls, stated over the specification
//! functions the operations' contracts use, and proved.
use vstd::prelude::*;
use crate::state::{
    stale, spec_toggle_arm, spec_settings, spec_routed, distinct, distinct_keys, initial_state, spec_reset, spec_snapshot, no_pulse, add_all, contact_pos, contact_prefix, del_all, hold_until, keep_in, keep_keys, lookup, put, put_all, ready_of, set_add, set_del, spec_cooldown_left, spec_finish, spec_ready, spec_record, spec_reserve, spec_set_devices, spec_targets, spec_update, was_high, key_pos, spec_connection, spec_discard, spec_toggle_route, spec_announce, spec_describe, sent_text, ContactView, Pulse, StateView,
};
use crate::pishock::{
    env_value, first_duplicate, spec_credentials, spec_read, spec_section, ConfigFault,
};
use crate::share::{keep_codes, spec_share_codes, split_commas};
use crate::text::{clean, is_placeholder, join, occurs_at, spec_is_space, trim, trim_end, trim_start};
use crate::theme::{spec_theme_id, spec_theme_index, THEME_COUNT};
use crate::text::has_prefix;

verus! {

/// The devices a batch takes; none for no batch.
pub open spec fn taken(b: Option<(Seq<Seq<char>>, Pulse)>) -> Seq<Seq<char>> {
    match b {
        Some(b) => b.0,
        None => Seq::empty(),
    }
}

proof fn lemma_set_add_contains(s: Seq<Seq<char>>, x: Seq<char>, y: Seq<char>)
    ensures
        set_add(s, x).contains(y) == (s.contains(y) || y == x),
{
    if !s.contains(x) {
        let t = s.push(x);
        if t.contains(y) {
            let k = choose|k: int| 0 <= k < t.len() && t[k] == y;
            if k < s.len() {
                assert(s[k] == y);
            }
        }
        if s.contains(y) {
            let k = choose|k: int| 0 <= k < s.len() && s[k] == y;
            assert(t[k] == y);
        }
        if y == x {
            assert(t[s.len() as int] == y);
        }
    }
}

proof fn lemma_add_all_contains(s: Seq<Seq<char>>, xs: Seq<Seq<char>>, y: Seq<char>)
    ensures
        add_all(s, xs).contains(y) == (s.contains(y) || xs.contains(y)),
    decreases xs.len(),
{
    if xs.len() > 0 {
        lemma_add_all_contains(s, xs.drop_last(), y);
        lemma_set_add_contains(add_all(s, xs.drop_last()), xs.last(), y);
        if xs.drop_last().contains(y) {
            let k = choose|k: int| 0 <= k < xs.drop_last().len() && xs.drop_last()[k] == y;
            assert(xs[k] == y);
        }
        if xs.contains(y) {
            let k = choose|k: int| 0 <= k < xs.len() && xs[k] == y;
            if k < xs.len() - 1 {
                assert(xs.drop_last()[k] == y);
            }
        }
    }
}

proof fn lemma_set_del_contains(s: Seq<Seq<char>>, x: Seq<char>, y: Seq<char>)
    ensures
        set_del(s, x).contains(y) == (s.contains(y) && y != x),
    decreases s.len(),
{
    if s.len() > 0 {
        lemma_set_del_contains(s.drop_last(), x, y);
        let d = set_del(s.drop_last(), x);
        if s.last() != x {
            let t = d.push(s.last());
            if t.contains(y) {
                let k = choose|k: int| 0 <= k < t.len() && t[k] == y;
                if k < d.len() {
                    assert(d[k] == y);
                }
            }
            if d.contains(y) {
                let k = choose|k: int| 0 <= k < d.len() && d[k] == y;
                assert(t[k] == y);
            }
            if y == s.last() {
                assert(t[d.len() as int] == y);
            }
        }
        if s.drop_last().contains(y) {
            let k = choose|k: int| 0 <= k < s.drop_last().len() && s.drop_last()[k] == y;
            assert(s[k] == y);
        }
        if s.contains(y) {
            let k = choose|k: int| 0 <= k < s.len() && s[k] == y;
            if k < s.len() - 1 {
                assert(s.drop_last()[k] == y);
            }
        }
    }
}

proof fn lemma_first_key_exists<V>(m: Seq<(Seq<char>, V)>, k: Seq<char>, i: int)
    requires
        0 <= i < m.len(),
        m[i].0 == k,
    ensures
        exists|w: int| 0 <= w < m.len() && m[w].0 == k && forall|j: int| 0 <= j < w ==> m[j].0 != k,
    decreases i,
{
    if exists|j: int| 0 <= j < i && m[j].0 == k {
        let j = choose|j: int| 0 <= j < i && m[j].0 == k;
        lemma_first_key_exists(m, k, j);
    } else {
        assert(0 <= i < m.len() && m[i].0 == k && forall|j: int| 0 <= j < i ==> m[j].0 != k);
    }
}

proof fn lemma_key_pos_some<V>(m: Seq<(Seq<char>, V)>, k: Seq<char>)
    requires
        key_pos(m, k) is Some,
    ensures
        0 <= key_pos(m, k)->0 < m.len(),
        m[key_pos(m, k)->0].0 == k,
        forall|j: int| 0 <= j < key_pos(m, k)->0 ==> m[j].0 != k,
{
    let i = choose|i: int| 0 <= i < m.len() && m[i].0 == k;
    lemma_first_key_exists(m, k, i);
}

proof fn lemma_key_pos_none<V>(m: Seq<(Seq<char>, V)>, k: Seq<char>)
    requires
        key_pos(m, k) is None,
    ensures
        forall|j: int| 0 <= j < m.len() ==> m[j].0 != k,
{
}

proof fn lemma_key_pos_at<V>(m: Seq<(Seq<char>, V)>, k: Seq<char>, i: int)
    requires
        0 <= i < m.len(),
        m[i].0 == k,
        forall|j: int| 0 <= j < i ==> m[j].0 != k,
    ensures
        key_pos(m, k) == Some(i),
{
    let w = choose|w: int| 0 <= w < m.len() && m[w].0 == k && forall|j: int| 0 <= j < w ==> m[j].0 != k;
    assert(0 <= w < m.len() && m[w].0 == k && forall|j: int| 0 <= j < w ==> m[j].0 != k);
    if w < i {
        assert(m[w].0 != k);
    } else if w > i {
        assert(m[i].0 != k);
    }
}

proof fn lemma_lookup_put<V>(m: Seq<(Seq<char>, V)>, k: Seq<char>, v: V, q: Seq<char>)
    ensures
        lookup(put(m, k, v), q) == if q == k { Some(v) } else { lookup(m, q) },
{
    let m2 = put(m, k, v);
    match key_pos(m, k) {
        Some(i) => {
            lemma_key_pos_some(m, k);
            if q == k {
                lemma_key_pos_at(m2, q, i);
            } else {
                match key_pos(m, q) {
                    Some(j) => {
                        lemma_key_pos_some(m, q);
                        lemma_key_pos_at(m2, q, j);
                    },
                    None => {
                        lemma_key_pos_none(m, q);
                        assert forall|j: int| 0 <= j < m2.len() implies m2[j].0 != q by {}
                        if key_pos(m2, q) is Some {
                            lemma_key_pos_some(m2, q);
                        }
                    },
                }
            }
        },
        None => {
            lemma_key_pos_none(m, k);
            if q == k {
                lemma_key_pos_at(m2, q, m.len() as int);
            } else {
                match key_pos(m, q) {
                    Some(j) => {
                        lemma_key_pos_some(m, q);
                        lemma_key_pos_at(m2, q, j);
                    },
                    None => {
                        lemma_key_pos_none(m, q);
                        if key_pos(m2, q) is Some {
                            lemma_key_pos_some(m2, q);
                            let w = key_pos(m2, q)->0;
                            if w < m.len() {
                                assert(m[w].0 != q);
                            }
                        }
                    },
                }
            }
        },
    }
}

proof fn lemma_push_contains<A>(s: Seq<A>, x: A, y: A)
    ensures
        s.push(x).contains(y) == (s.contains(y) || y == x),
{
    let t = s.push(x);
    if t.contains(y) {
        let k = choose|k: int| 0 <= k < t.len() && t[k] == y;
        if k < s.len() {
            assert(s[k] == y);
        }
    }
    if s.contains(y) {
        let k = choose|k: int| 0 <= k < s.len() && s[k] == y;
        assert(t[k] == y);
    }
    if y == x {
        assert(t[s.len() as int] == y);
    }
}

proof fn lemma_lookup_put_all<V>(m: Seq<(Seq<char>, V)>, xs: Seq<Seq<char>>, v: V, q: Seq<char>)
    ensures
        lookup(put_all(m, xs, v), q) == if xs.contains(q) { Some(v) } else { lookup(m, q) },
    decreases xs.len(),
{
    if xs.len() > 0 {
        let init = xs.drop_last();
        lemma_lookup_put_all(m, init, v, q);
        lemma_lookup_put(put_all(m, init, v), xs.last(), v, q);
        assert(xs =~= init.push(xs.last()));
        lemma_push_contains(init, xs.last(), q);
    }
}

proof fn lemma_ready_of_members(s: StateView, cands: Seq<Seq<char>>, now: u64, d: Seq<char>)
    ensures
        ready_of(s, cands, now).contains(d) == (cands.contains(d) && spec_ready(s, d, now)),
    decreases cands.len(),
{
    if cands.len() > 0 {
        lemma_ready_of_members(s, cands.drop_last(), now, d);
        let r = ready_of(s, cands.drop_last(), now);
        if spec_ready(s, cands.last(), now) {
            let t = r.push(cands.last());
            if t.contains(d) {
                let k = choose|k: int| 0 <= k < t.len() && t[k] == d;
                if k < r.len() {
                    assert(r[k] == d);
                }
            }
            if r.contains(d) {
                let k = choose|k: int| 0 <= k < r.len() && r[k] == d;
                assert(t[k] == d);
            }
            if d == cands.last() {
                assert(t[r.len() as int] == d);
            }
        }
        if cands.drop_last().contains(d) {
            let k = choose|k: int| 0 <= k < cands.drop_last().len() && cands.drop_last()[k] == d;
            assert(cands[k] == d);
        }
        if cands.contains(d) {
            let k = choose|k: int| 0 <= k < cands.len() && cands[k] == d;
            if k < cands.len() - 1 {
                assert(cands.drop_last()[k] == d);
            }
        }
    }
}

/// Taking devices for a pulse marks each taken device as sending.
pub proof fn law_taken_devices_are_sending(s: StateView, cands: Seq<Seq<char>>, now: u64, p: Pulse, d: Seq<char>)
    requires
        spec_reserve(s, cands, now, p).1 matches Some(b) && b.0.contains(d),
    ensures
        spec_reserve(s, cands, now, p).0.busy.contains(d),
        !spec_ready(spec_reserve(s, cands, now, p).0, d, now),
{
    let devs = ready_of(s, cands, now);
    lemma_add_all_contains(s.busy, devs, d);
}

/// A device a pulse was sent to takes no other pulse before the pulse and
/// the cooldown are over, also once its send has finished, whatever its
/// outcome.
pub proof fn law_cooldown_holds(s: StateView, cands: Seq<Seq<char>>, now: u64, p: Pulse, d: Seq<char>, outcome: Option<Seq<char>>, later: u64)
    requires
        spec_reserve(s, cands, now, p).1 matches Some(b) && b.0.contains(d),
        later < hold_until(s, p, now),
    ensures
        !spec_ready(spec_reserve(s, cands, now, p).0, d, later),
        !spec_ready(spec_finish(spec_reserve(s, cands, now, p).0, d, outcome), d, later),
{
    let devs = ready_of(s, cands, now);
    let s2 = spec_reserve(s, cands, now, p).0;
    lemma_lookup_put_all(s.cooling, devs, hold_until(s, p, now), d);
    assert(spec_cooldown_left(s2, d, later) is Some);
    assert(spec_finish(s2, d, outcome).cooling == s2.cooling);
}

/// Once the pulse and the cooldown are over and its send has finished, a
/// device takes pulses again.
pub proof fn law_cooldown_ends(s: StateView, cands: Seq<Seq<char>>, now: u64, p: Pulse, d: Seq<char>, outcome: Option<Seq<char>>, later: u64)
    requires
        spec_reserve(s, cands, now, p).1 matches Some(b) && b.0.contains(d),
        later >= hold_until(s, p, now),
    ensures
        spec_ready(spec_finish(spec_reserve(s, cands, now, p).0, d, outcome), d, later),
{
    let devs = ready_of(s, cands, now);
    let s2 = spec_reserve(s, cands, now, p).0;
    lemma_lookup_put_all(s.cooling, devs, hold_until(s, p, now), d);
    lemma_set_del_contains(s2.busy, d, d);
    assert(spec_finish(s2, d, outcome).cooling == s2.cooling);
}

/// Taking devices for a pulse leaves every other device as ready, or not,
/// as it was, at any time.
pub proof fn law_other_devices_unaffected(s: StateView, cands: Seq<Seq<char>>, now: u64, p: Pulse, d: Seq<char>, t: u64)
    requires
        !ready_of(s, cands, now).contains(d),
    ensures
        spec_ready(spec_reserve(s, cands, now, p).0, d, t) == spec_ready(s, d, t),
{
    let devs = ready_of(s, cands, now);
    if devs.len() > 0 {
        lemma_add_all_contains(s.busy, devs, d);
        lemma_lookup_put_all(s.cooling, devs, hold_until(s, p, now), d);
    }
}

/// Only ready candidates are taken, and every ready candidate is.
pub proof fn law_takes_exactly_ready(s: StateView, cands: Seq<Seq<char>>, now: u64, p: Pulse, d: Seq<char>)
    requires
        spec_reserve(s, cands, now, p).1 is Some,
    ensures
        taken(spec_reserve(s, cands, now, p).1).contains(d) == (cands.contains(d) && spec_ready(s, d, now)),
{
    lemma_ready_of_members(s, cands, now, d);
}

/// Once its send is over, a device is no longer sending; the other
/// devices' sends are untouched.
pub proof fn law_finish_frees(s: StateView, d: Seq<char>, outcome: Option<Seq<char>>, other: Seq<char>)
    ensures
        !spec_finish(s, d, outcome).busy.contains(d),
        other != d ==> spec_finish(s, d, outcome).busy.contains(other) == s.busy.contains(other),
{
    lemma_set_del_contains(s.busy, d, d);
    lemma_set_del_contains(s.busy, d, other);
}


proof fn lemma_first_contact_exists(cs: Seq<ContactView>, path: Seq<char>, i: int)
    requires
        0 <= i < cs.len(),
        cs[i].path == path,
    ensures
        exists|w: int| 0 <= w < cs.len() && cs[w].path == path && forall|j: int| 0 <= j < w ==> cs[j].path != path,
    decreases i,
{
    if exists|j: int| 0 <= j < i && cs[j].path == path {
        let j = choose|j: int| 0 <= j < i && cs[j].path == path;
        lemma_first_contact_exists(cs, path, j);
    } else {
        assert(0 <= i < cs.len() && cs[i].path == path && forall|j: int| 0 <= j < i ==> cs[j].path != path);
    }
}

proof fn lemma_contact_pos_some(cs: Seq<ContactView>, path: Seq<char>)
    requires
        contact_pos(cs, path) is Some,
    ensures
        0 <= contact_pos(cs, path)->0 < cs.len(),
        cs[contact_pos(cs, path)->0].path == path,
        forall|j: int| 0 <= j < contact_pos(cs, path)->0 ==> cs[j].path != path,
{
    let i = choose|i: int| 0 <= i < cs.len() && cs[i].path == path;
    lemma_first_contact_exists(cs, path, i);
}

proof fn lemma_contact_pos_at(cs: Seq<ContactView>, path: Seq<char>, i: int)
    requires
        0 <= i < cs.len(),
        cs[i].path == path,
        forall|j: int| 0 <= j < i ==> cs[j].path != path,
    ensures
        contact_pos(cs, path) == Some(i),
{
    let w = choose|w: int| 0 <= w < cs.len() && cs[w].path == path && forall|j: int| 0 <= j < w ==> cs[j].path != path;
    assert(0 <= w < cs.len() && cs[w].path == path && forall|j: int| 0 <= j < w ==> cs[j].path != path);
    if w < i {
        assert(cs[w].path != path);
    } else if w > i {
        assert(cs[i].path != path);
    }
}

proof fn lemma_keep_in_empty(s: Seq<Seq<char>>)
    ensures
        keep_in(s, Seq::empty()) == Seq::<Seq<char>>::empty(),
    decreases s.len(),
{
    if s.len() > 0 {
        lemma_keep_in_empty(s.drop_last());
    }
}

proof fn lemma_keep_in_contains(s: Seq<Seq<char>>, keys: Seq<Seq<char>>, y: Seq<char>)
    ensures
        keep_in(s, keys).contains(y) == (s.contains(y) && keys.contains(y)),
    decreases s.len(),
{
    if s.len() > 0 {
        let init = s.drop_last();
        lemma_keep_in_contains(init, keys, y);
        assert(s =~= init.push(s.last()));
        lemma_push_contains(init, s.last(), y);
        if keys.contains(s.last()) {
            lemma_push_contains(keep_in(init, keys), s.last(), y);
        }
    }
}

proof fn lemma_keep_keys_members<V>(m: Seq<(Seq<char>, V)>, keys: Seq<Seq<char>>)
    ensures
        forall|k: int| 0 <= k < keep_keys(m, keys).len() ==> keys.contains(#[trigger] keep_keys(m, keys)[k].0),
    decreases m.len(),
{
    if m.len() > 0 {
        lemma_keep_keys_members(m.drop_last(), keys);
        let r = keep_keys(m, keys);
        let init = keep_keys(m.drop_last(), keys);
        assert forall|k: int| 0 <= k < r.len() implies keys.contains(#[trigger] r[k].0) by {
            if keys.contains(m.last().0) {
                if k < init.len() {
                    assert(r[k] == init[k]);
                }
            } else {
                assert(r[k] == init[k]);
            }
        }
    }
}

/// Recording a value finds the contact at its path, holding that value.
proof fn lemma_record_finds(s: StateView, path: Seq<char>, bits: u64, high: bool, live: bool, now: u64)
    ensures
        contact_pos(spec_record(s, path, bits, high, live, now).contacts, path) matches Some(i) && {
            let c = spec_record(s, path, bits, high, live, now).contacts[i];
            &&& c.high == high
            &&& c.bits == bits
        },
        spec_targets(spec_record(s, path, bits, high, live, now), path) == spec_targets(s, path),
{
    let s1 = spec_record(s, path, bits, high, live, now);
    match contact_pos(s.contacts, path) {
        Some(i) => {
            lemma_contact_pos_some(s.contacts, path);
            lemma_contact_pos_at(s1.contacts, path, i);
        },
        None => {
            if exists|j: int| 0 <= j < s.contacts.len() && s.contacts[j].path == path {
                let j = choose|j: int| 0 <= j < s.contacts.len() && s.contacts[j].path == path;
                lemma_first_contact_exists(s.contacts, path, j);
            }
            lemma_contact_pos_at(s1.contacts, path, s.contacts.len() as int);
            lemma_keep_in_empty(s.devices);
        },
    }
}

/// Whatever an update does besides recording the value leaves the
/// contacts alone.
proof fn lemma_update_contacts(s: StateView, path: Seq<char>, bits: u64, high: bool, live: bool, now: u64, p: Pulse)
    ensures
        has_prefix(path, contact_prefix()) ==> spec_update(s, path, bits, high, live, now, p).0.contacts
            == spec_record(s, path, bits, high, live, now).contacts,
{
}

/// A contact fires only when a live value rises above the threshold from
/// at most the threshold.
pub proof fn law_fires_only_on_rise(s: StateView, path: Seq<char>, bits: u64, high: bool, live: bool, now: u64, p: Pulse)
    requires
        spec_update(s, path, bits, high, live, now, p).1 is Some,
    ensures
        has_prefix(path, contact_prefix()),
        live,
        high,
        !was_high(s, path),
{
}

/// A contact that stays above the threshold does not fire again, however
/// often its value arrives.
pub proof fn law_no_refire_while_high(s: StateView, path: Seq<char>, b1: u64, l1: bool, n1: u64, p1: Pulse, b2: u64, l2: bool, n2: u64, p2: Pulse)
    ensures
        spec_update(spec_update(s, path, b1, true, l1, n1, p1).0, path, b2, true, l2, n2, p2).1 is None,
{
    if has_prefix(path, contact_prefix()) {
        lemma_record_finds(s, path, b1, true, l1, n1);
        lemma_update_contacts(s, path, b1, true, l1, n1, p1);
    }
}

/// Every value of a contact parameter makes the contact known, holding that
/// value.
pub proof fn law_contact_known(s: StateView, path: Seq<char>, bits: u64, high: bool, live: bool, now: u64, p: Pulse)
    requires
        has_prefix(path, contact_prefix()),
    ensures
        contact_pos(spec_update(s, path, bits, high, live, now, p).0.contacts, path) matches Some(i)
            && spec_update(s, path, bits, high, live, now, p).0.contacts[i].high == high,
{
    lemma_record_finds(s, path, bits, high, live, now);
    lemma_update_contacts(s, path, bits, high, live, now, p);
}

proof fn lemma_ready_of_same(s: StateView, s1: StateView, cands: Seq<Seq<char>>, now: u64)
    requires
        s.busy == s1.busy,
        s.cooling == s1.cooling,
    ensures
        ready_of(s, cands, now) == ready_of(s1, cands, now),
    decreases cands.len(),
{
    if cands.len() > 0 {
        lemma_ready_of_same(s, s1, cands.drop_last(), now);
    }
}

/// When a live value rises above the threshold, output is armed and VRChat
/// is connected, the contact fires exactly the devices it is routed to that
/// are ready, with the pulse; with none ready, nothing is sent.
pub proof fn law_fires_ready_targets(s: StateView, path: Seq<char>, bits: u64, now: u64, p: Pulse)
    requires
        has_prefix(path, contact_prefix()),
        !was_high(s, path),
        s.armed,
        s.connected,
    ensures
        ready_of(s, spec_targets(s, path), now).len() > 0 ==> spec_update(s, path, bits, true, true, now, p).1
            == Some((ready_of(s, spec_targets(s, path), now), p)),
        ready_of(s, spec_targets(s, path), now).len() == 0 ==> spec_update(s, path, bits, true, true, now, p).1 is None,
{
    let s1 = spec_record(s, path, bits, true, true, now);
    lemma_record_finds(s, path, bits, true, true, now);
    lemma_ready_of_same(s, s1, spec_targets(s, path), now);
}

/// A contact fires only devices that are configured and routed to it.
pub proof fn law_targets_are_routed_devices(s: StateView, path: Seq<char>, d: Seq<char>)
    requires
        spec_targets(s, path).contains(d),
    ensures
        s.devices.contains(d),
        contact_pos(s.contacts, path) matches Some(i) && s.contacts[i].routes.contains(d),
{
    match contact_pos(s.contacts, path) {
        Some(i) => {
            lemma_keep_in_contains(s.devices, s.contacts[i].routes, d);
        },
        None => {},
    }
}

/// After the device list changes, output is disarmed and no route, result
/// or cooldown remains for a device that is not listed.
pub proof fn law_device_list_cleanup(s: StateView, ds: Seq<Seq<char>>)
    ensures
        !spec_set_devices(s, ds).armed,
        spec_set_devices(s, ds).devices == ds,
        forall|i: int, x: Seq<char>| 0 <= i < spec_set_devices(s, ds).contacts.len() && #[trigger] spec_set_devices(s, ds).contacts[i].routes.contains(x) ==> ds.contains(x),
        forall|k: int| 0 <= k < spec_set_devices(s, ds).results.len() ==> ds.contains(#[trigger] spec_set_devices(s, ds).results[k].0),
        forall|k: int| 0 <= k < spec_set_devices(s, ds).cooling.len() ==> ds.contains(#[trigger] spec_set_devices(s, ds).cooling[k].0),
{
    lemma_keep_keys_members(s.results, ds);
    lemma_keep_keys_members(s.cooling, ds);
    let s2 = spec_set_devices(s, ds);
    assert forall|i: int, x: Seq<char>| 0 <= i < s2.contacts.len() && #[trigger] s2.contacts[i].routes.contains(x) implies ds.contains(x) by {
        lemma_keep_in_contains(s.contacts[i].routes, ds, x);
    }
}


/// The account and devices of a configuration that gives them.
pub open spec fn configured(r: Result<Option<((Seq<char>, Seq<char>, Seq<char>), Seq<(Seq<char>, Seq<char>)>)>, ConfigFault>) -> ((Seq<char>, Seq<char>, Seq<char>), Seq<(Seq<char>, Seq<char>)>) {
    r->Ok_0->0
}

/// Output is disarmed by a routing change, a lost VRChat connection, a
/// failed send, a batch dropped for want of credentials, an avatar change
/// and any change of the action settings; a lost connection also forgets
/// the contacts.
pub proof fn law_disarming_events(s: StateView, path: Seq<char>, device: Seq<char>, error: Seq<char>, devs: Seq<Seq<char>>, op: u8, intensity: u8, duration: u8, cooldown: u8, random: bool)
    ensures
        !spec_reset(s).armed,
        (op, intensity, duration, cooldown, random) != (s.op, s.intensity, s.duration, s.cooldown, s.random)
            ==> !spec_settings(s, op, intensity, duration, cooldown, random).armed,
        contact_pos(s.contacts, path) is Some ==> !spec_toggle_route(s, path, device).armed,
        s.connected ==> !spec_connection(s, false).armed && spec_connection(s, false).contacts.len() == 0,
        !spec_finish(s, device, Some(error)).armed,
        !spec_discard(s, devs).armed,
{
}

proof fn lemma_no_duplicate(ds: Seq<(Seq<char>, Seq<char>)>)
    requires
        first_duplicate(ds) is None,
    ensures
        forall|i: int, j: int| 0 <= i < j < ds.len() ==> ds[i].0 != ds[j].0,
    decreases ds.len(),
{
    if ds.len() > 0 {
        let init = ds.drop_last();
        lemma_no_duplicate(init);
        assert forall|i: int, j: int| 0 <= i < j < ds.len() implies ds[i].0 != ds[j].0 by {
            if j < ds.len() - 1 {
                assert(init[i] == ds[i] && init[j] == ds[j]);
            } else {
                assert(!(exists|k: int| 0 <= k < ds.len() - 1 && ds[k].0 == ds.last().0));
                assert(0 <= i < ds.len() - 1);
            }
        }
    }
}

/// The arm button disarms armed output, and arms disarmed output exactly
/// when credentials are loaded, VRChat is connected and a contact is routed.
pub proof fn law_arm_button(s: StateView, has_api: bool)
    ensures
        s.armed ==> !spec_toggle_arm(s, has_api).armed,
        !s.armed ==> (spec_toggle_arm(s, has_api).armed <==> (has_api && s.connected && spec_routed(s))),
{
}

/// The devices a configuration gives have distinct names; there is at
/// least one, and the account has a username and an API key.
pub proof fn law_configured_devices(config: crate::json::Json, env: (Option<Seq<char>>, Option<Seq<char>>, Option<Seq<char>>, Option<Seq<char>>))
    requires
        spec_credentials(config, env) is Ok,
        spec_credentials(config, env)->Ok_0 is Some,
    ensures
        ({
            let ds = configured(spec_credentials(config, env)).1;
            &&& ds.len() > 0
            &&& forall|i: int, j: int| 0 <= i < j < ds.len() ==> ds[i].0 != ds[j].0
        }),
{
    let section = spec_section(config)->Ok_0;
    let code = spec_read(section, "share_code"@, env.3)->Ok_0;
    let more = crate::pishock::spec_device_list(section)->Ok_0;
    let all = crate::pishock::legacy_devices(code) + more;
    lemma_no_duplicate(all);
}

/// A non-blank username, API key or app name in the environment overrides
/// the file's.
pub proof fn law_environment_overrides(config: crate::json::Json, env: (Option<Seq<char>>, Option<Seq<char>>, Option<Seq<char>>, Option<Seq<char>>))
    requires
        spec_credentials(config, env) is Ok,
        spec_credentials(config, env)->Ok_0 is Some,
    ensures
        ({
            let a = configured(spec_credentials(config, env)).0;
            &&& env_value(env.0) matches Some(u) ==> a.0 == u
            &&& env_value(env.1) matches Some(k) ==> a.1 == k
            &&& env_value(env.2) matches Some(n) ==> a.2 == n
        }),
{
}

/// Without a username or an API key, from the file or the environment, the
/// bridge gets no account: it only monitors.
pub proof fn law_monitor_only(config: crate::json::Json, env: (Option<Seq<char>>, Option<Seq<char>>, Option<Seq<char>>, Option<Seq<char>>))
    requires
        spec_section(config) is Ok,
        spec_read(spec_section(config)->Ok_0, "username"@, env.0) == Ok::<Option<Seq<char>>, ConfigFault>(None)
            || spec_read(spec_section(config)->Ok_0, "api_key"@, env.1) == Ok::<Option<Seq<char>>, ConfigFault>(None),
    ensures
        !(spec_credentials(config, env) matches Ok(Some(_))),
{
}

proof fn lemma_trim_start_suffix(s: Seq<char>)
    ensures
        exists|k: int| 0 <= k <= s.len() && trim_start(s) == s.subrange(k, s.len() as int),
        trim_start(s).len() > 0 ==> !spec_is_space(trim_start(s)[0]),
    decreases s.len(),
{
    if s.len() > 0 && spec_is_space(s[0]) {
        lemma_trim_start_suffix(s.drop_first());
        let k = choose|k: int| 0 <= k <= s.drop_first().len() && trim_start(s.drop_first()) == s.drop_first().subrange(k, s.drop_first().len() as int);
        assert(s.drop_first().subrange(k, s.drop_first().len() as int) =~= s.subrange(k + 1, s.len() as int));
    } else {
        assert(s.subrange(0, s.len() as int) =~= s);
    }
}

proof fn lemma_trim_end_prefix(s: Seq<char>)
    ensures
        exists|k: int| 0 <= k <= s.len() && trim_end(s) == s.subrange(0, k),
        trim_end(s).len() > 0 ==> !spec_is_space(trim_end(s).last()),
    decreases s.len(),
{
    if s.len() > 0 && spec_is_space(s.last()) {
        lemma_trim_end_prefix(s.drop_last());
        let k = choose|k: int| 0 <= k <= s.drop_last().len() && trim_end(s.drop_last()) == s.drop_last().subrange(0, k);
        assert(s.drop_last().subrange(0, k) =~= s.subrange(0, k));
    } else {
        assert(s.subrange(0, s.len() as int) =~= s);
    }
}

proof fn lemma_trim_shape(s: Seq<char>)
    ensures
        exists|a: int, b: int| 0 <= a <= b <= s.len() && trim(s) == s.subrange(a, b),
        trim(s).len() > 0 ==> !spec_is_space(trim(s)[0]) && !spec_is_space(trim(s).last()),
{
    lemma_trim_start_suffix(s);
    let a = choose|k: int| 0 <= k <= s.len() && trim_start(s) == s.subrange(k, s.len() as int);
    let t = trim_start(s);
    lemma_trim_end_prefix(t);
    let b = choose|k: int| 0 <= k <= t.len() && trim_end(t) == t.subrange(0, k);
    assert(t.subrange(0, b) =~= s.subrange(a, a + b));
    if trim(s).len() > 0 {
        assert(trim(s)[0] == t[0]);
    }
}

proof fn lemma_split_no_comma(s: Seq<char>)
    ensures
        forall|k: int| 0 <= k < split_commas(s).len() ==> !(#[trigger] split_commas(s)[k]).contains(','),
    decreases s.len(),
{
    if s.len() > 0 {
        let init = split_commas(s.drop_last());
        lemma_split_no_comma(s.drop_last());
        crate::share::lemma_split_nonempty(s.drop_last());
        let r = split_commas(s);
        assert forall|k: int| 0 <= k < r.len() implies !(#[trigger] r[k]).contains(',') by {
            if s.last() == ',' {
                if k < init.len() {
                    assert(r[k] == init[k]);
                } else {
                    assert(r[k] =~= Seq::<char>::empty());
                }
            } else if k < init.len() - 1 {
                assert(r[k] == init[k]);
            } else {
                assert(r[k] == init.last().push(s.last()));
                lemma_push_contains(init.last(), s.last(), ',');
                assert(init.last() == init[init.len() - 1]);
            }
        }
    }
}

proof fn lemma_keep_codes_clean(pieces: Seq<Seq<char>>)
    requires
        forall|k: int| 0 <= k < pieces.len() ==> !(#[trigger] pieces[k]).contains(','),
    ensures
        forall|k: int| 0 <= k < keep_codes(pieces).len() ==> {
            let c = #[trigger] keep_codes(pieces)[k];
            &&& c.len() > 0
            &&& !is_placeholder(c)
            &&& !spec_is_space(c[0])
            &&& !spec_is_space(c.last())
            &&& !c.contains(',')
        },
    decreases pieces.len(),
{
    if pieces.len() > 0 {
        let init = pieces.drop_last();
        assert forall|k: int| 0 <= k < init.len() implies !(#[trigger] init[k]).contains(',') by {
            assert(init[k] == pieces[k]);
        }
        lemma_keep_codes_clean(init);
        let p = pieces.last();
        assert(p == pieces[pieces.len() - 1]);
        lemma_trim_shape(p);
        let r = keep_codes(pieces);
        let ki = keep_codes(init);
        assert forall|k: int| 0 <= k < r.len() implies ({
            let c = #[trigger] r[k];
            &&& c.len() > 0
            &&& !is_placeholder(c)
            &&& !spec_is_space(c[0])
            &&& !spec_is_space(c.last())
            &&& !c.contains(',')
        }) by {
            if k < ki.len() {
                assert(r[k] == ki[k]);
            } else {
                let c = r[k];
                assert(clean(p) == Some(c));
                let (a, b) = choose|a: int, b: int| 0 <= a <= b <= p.len() && trim(p) == p.subrange(a, b);
                if c.contains(',') {
                    let j = choose|j: int| 0 <= j < c.len() && c[j] == ',';
                    assert(p[a + j] == ',');
                }
            }
        }
    }
}

/// Every share code found is non-empty, not a placeholder, holds no comma
/// and neither begins nor ends with white space.
pub proof fn law_share_codes_clean(value: Seq<char>)
    ensures
        forall|k: int| 0 <= k < spec_share_codes(value).len() ==> {
            let c = #[trigger] spec_share_codes(value)[k];
            &&& c.len() > 0
            &&& !is_placeholder(c)
            &&& !spec_is_space(c[0])
            &&& !spec_is_space(c.last())
            &&& !c.contains(',')
        },
{
    let list = crate::share::code_list(trim(value));
    lemma_split_no_comma(list);
    lemma_keep_codes_clean(split_commas(list));
}

/// Whether `s` holds no `sharecode=`.
pub open spec fn no_link_key(s: Seq<char>) -> bool {
    forall|i: int| !occurs_at(s, "sharecode="@, i)
}

proof fn lemma_link_key_chars()
    ensures
        "sharecode="@.len() == 10,
        !"sharecode="@.contains(','),
{
    reveal_strlit("sharecode=");
    if "sharecode="@.contains(',') {
        let j = choose|j: int| 0 <= j < "sharecode="@.len() && "sharecode="@[j] == ',';
        assert(false);
    }
}

proof fn lemma_no_key_sub(s: Seq<char>, a: int, b: int)
    requires
        no_link_key(s),
        0 <= a <= b <= s.len(),
    ensures
        no_link_key(s.subrange(a, b)),
{
    let t = s.subrange(a, b);
    let p = "sharecode="@;
    assert forall|i: int| !occurs_at(t, p, i) by {
        if occurs_at(t, p, i) {
            assert(t.subrange(i, i + p.len()) =~= s.subrange(a + i, a + i + p.len()));
            assert(occurs_at(s, p, a + i));
        }
    }
}

proof fn lemma_no_key_trim(s: Seq<char>)
    requires
        no_link_key(s),
    ensures
        no_link_key(trim(s)),
{
    lemma_trim_shape(s);
    let (a, b) = choose|a: int, b: int| 0 <= a <= b <= s.len() && trim(s) == s.subrange(a, b);
    lemma_no_key_sub(s, a, b);
}

proof fn lemma_split_last_suffix(s: Seq<char>)
    ensures
        exists|a: int| 0 <= a <= s.len() && split_commas(s).last() == s.subrange(a, s.len() as int),
    decreases s.len(),
{
    crate::share::lemma_split_nonempty(s);
    if s.len() == 0 {
        assert(split_commas(s).last() =~= s.subrange(0, 0));
    } else {
        let init = s.drop_last();
        lemma_split_last_suffix(init);
        crate::share::lemma_split_nonempty(init);
        if s.last() == ',' {
            assert(split_commas(s).last() =~= s.subrange(s.len() as int, s.len() as int));
        } else {
            let a = choose|a: int| 0 <= a <= init.len() && split_commas(init).last() == init.subrange(a, init.len() as int);
            assert(split_commas(s).last() =~= s.subrange(a, s.len() as int));
        }
    }
}

proof fn lemma_split_no_key(s: Seq<char>)
    requires
        no_link_key(s),
    ensures
        forall|k: int| 0 <= k < split_commas(s).len() ==> no_link_key(#[trigger] split_commas(s)[k]),
    decreases s.len(),
{
    lemma_link_key_chars();
    if s.len() > 0 {
        let init = s.drop_last();
        lemma_no_key_sub(s, 0, s.len() - 1);
        assert(s.subrange(0, s.len() - 1) =~= init);
        lemma_split_no_key(init);
        crate::share::lemma_split_nonempty(init);
        lemma_split_last_suffix(init);
        let a = choose|a: int| 0 <= a <= init.len() && split_commas(init).last() == init.subrange(a, init.len() as int);
        let si = split_commas(init);
        let r = split_commas(s);
        assert forall|k: int| 0 <= k < r.len() implies no_link_key(#[trigger] r[k]) by {
            if s.last() == ',' {
                if k < si.len() {
                    assert(r[k] == si[k]);
                } else {
                    assert forall|i: int| !occurs_at(r[k], "sharecode="@, i) by {}
                }
            } else if k < si.len() - 1 {
                assert(r[k] == si[k]);
            } else {
                assert(r[k] =~= s.subrange(a, s.len() as int));
                lemma_no_key_sub(s, a, s.len() as int);
            }
        }
    }
}

proof fn lemma_keep_codes_no_key(pieces: Seq<Seq<char>>)
    requires
        forall|k: int| 0 <= k < pieces.len() ==> no_link_key(#[trigger] pieces[k]),
    ensures
        forall|k: int| 0 <= k < keep_codes(pieces).len() ==> no_link_key(#[trigger] keep_codes(pieces)[k]),
    decreases pieces.len(),
{
    if pieces.len() > 0 {
        let init = pieces.drop_last();
        assert forall|k: int| 0 <= k < init.len() implies no_link_key(#[trigger] init[k]) by {
            assert(init[k] == pieces[k]);
        }
        lemma_keep_codes_no_key(init);
        let p = pieces.last();
        assert(p == pieces[pieces.len() - 1]);
        lemma_no_key_trim(p);
        let r = keep_codes(pieces);
        let ki = keep_codes(init);
        assert forall|k: int| 0 <= k < r.len() implies no_link_key(#[trigger] r[k]) by {
            if k < ki.len() {
                assert(r[k] == ki[k]);
            }
        }
    }
}

proof fn lemma_occurs_concat(x: Seq<char>, y: Seq<char>, p: Seq<char>, i: int)
    requires
        occurs_at(x + y, p, i),
    ensures
        i + p.len() <= x.len() ==> occurs_at(x, p, i),
        i >= x.len() ==> occurs_at(y, p, i - x.len()),
        i < x.len() < i + p.len() ==> p[x.len() - i] == y[0],
{
    let xy = x + y;
    if i + p.len() <= x.len() {
        assert(xy.subrange(i, i + p.len()) =~= x.subrange(i, i + p.len()));
    }
    if i >= x.len() {
        assert(xy.subrange(i, i + p.len()) =~= y.subrange(i - x.len(), i - x.len() + p.len()));
        assert(occurs_at(y, p, i - x.len()));
    }
    if i < x.len() < i + p.len() {
        assert(xy.subrange(i, i + p.len())[x.len() - i] == xy[x.len() as int]);
    }
}

proof fn lemma_join_no_key(cs: Seq<Seq<char>>)
    requires
        forall|k: int| 0 <= k < cs.len() ==> no_link_key(#[trigger] cs[k]),
    ensures
        no_link_key(join(cs, ","@)),
    decreases cs.len(),
{
    reveal_strlit(",");
    lemma_link_key_chars();
    let p = "sharecode="@;
    if cs.len() == 1 {
        assert(join(cs, ","@) == cs[0]);
    } else if cs.len() > 1 {
        let init = cs.drop_last();
        assert forall|k: int| 0 <= k < init.len() implies no_link_key(#[trigger] init[k]) by {
            assert(init[k] == cs[k]);
        }
        lemma_join_no_key(init);
        let a = join(init, ","@);
        let b = cs.last();
        assert(no_link_key(cs[cs.len() - 1]));
        let y = ","@ + b;
        assert(join(cs, ","@) == a + y);
        assert forall|i: int| !occurs_at(a + y, p, i) by {
            if occurs_at(a + y, p, i) {
                lemma_occurs_concat(a, y, p, i);
                if i >= a.len() {
                    lemma_occurs_concat(","@, b, p, i - a.len());
                    if i - a.len() < 1 {
                        assert(p[1 - (i - a.len())] == b[0]);
                        assert(p[0] == (","@ + b)[0]);
                        assert(p.contains(','));
                    }
                } else if i + p.len() > a.len() {
                    assert(y[0] == ',');
                    assert(p[a.len() - i] == ',');
                    assert(p.contains(','));
                }
            }
        }
    }
}

proof fn lemma_split_no_comma_whole(s: Seq<char>)
    requires
        !s.contains(','),
    ensures
        split_commas(s) == seq![s],
    decreases s.len(),
{
    if s.len() == 0 {
        assert(s =~= Seq::<char>::empty());
    } else {
        let init = s.drop_last();
        if init.contains(',') {
            let j = choose|j: int| 0 <= j < init.len() && init[j] == ',';
            assert(s[j] == ',');
        }
        lemma_split_no_comma_whole(init);
        assert(s.last() == s[s.len() - 1]);
        assert(split_commas(s) =~= seq![init.push(s.last())]);
        assert(init.push(s.last()) =~= s);
    }
}

proof fn lemma_split_concat(x: Seq<char>, y: Seq<char>)
    ensures
        split_commas(x + seq![','] + y) == split_commas(x) + split_commas(y),
    decreases y.len(),
{
    let xc = x + seq![','];
    if y.len() == 0 {
        assert(xc + y =~= xc);
        assert(xc.drop_last() =~= x);
        assert(split_commas(xc) =~= split_commas(x) + split_commas(y));
    } else {
        let yi = y.drop_last();
        lemma_split_concat(x, yi);
        crate::share::lemma_split_nonempty(yi);
        let whole = xc + y;
        assert(whole.drop_last() =~= xc + yi);
        assert(whole.last() == y.last());
        let sx = split_commas(x);
        let sy = split_commas(yi);
        if y.last() == ',' {
            assert(split_commas(whole) =~= sx + split_commas(y));
        } else {
            assert((sx + sy).last() == sy.last());
            assert(split_commas(whole) =~= sx + split_commas(y));
        }
    }
}

proof fn lemma_split_join(cs: Seq<Seq<char>>)
    requires
        cs.len() >= 1,
        forall|k: int| 0 <= k < cs.len() ==> !(#[trigger] cs[k]).contains(','),
    ensures
        split_commas(join(cs, ","@)) == cs,
    decreases cs.len(),
{
    reveal_strlit(",");
    assert(cs[0] == cs[0]);
    if cs.len() == 1 {
        lemma_split_no_comma_whole(cs[0]);
        assert(seq![cs[0]] =~= cs);
    } else {
        let init = cs.drop_last();
        assert forall|k: int| 0 <= k < init.len() implies !(#[trigger] init[k]).contains(',') by {
            assert(init[k] == cs[k]);
        }
        lemma_split_join(init);
        let b = cs.last();
        assert(!cs[cs.len() - 1].contains(','));
        lemma_split_no_comma_whole(b);
        assert(","@ =~= seq![',']);
        assert(join(cs, ","@) =~= join(init, ","@) + seq![','] + b);
        lemma_split_concat(join(init, ","@), b);
        assert(init + seq![b] =~= cs);
    }
}

proof fn lemma_trim_id(s: Seq<char>)
    requires
        s.len() > 0,
        !spec_is_space(s[0]),
        !spec_is_space(s.last()),
    ensures
        trim(s) == s,
{
    assert(trim_start(s) == s);
    assert(trim_end(s) == s);
}

proof fn lemma_join_ends(cs: Seq<Seq<char>>)
    requires
        cs.len() >= 1,
        forall|k: int| 0 <= k < cs.len() ==> (#[trigger] cs[k]).len() > 0,
    ensures
        join(cs, ","@).len() > 0,
        join(cs, ","@)[0] == cs[0][0],
        join(cs, ","@).last() == cs.last().last(),
    decreases cs.len(),
{
    assert(cs[0].len() > 0);
    assert(cs[cs.len() - 1].len() > 0);
    if cs.len() > 1 {
        let init = cs.drop_last();
        assert forall|k: int| 0 <= k < init.len() implies (#[trigger] init[k]).len() > 0 by {
            assert(init[k] == cs[k]);
        }
        lemma_join_ends(init);
        assert(init[0] == cs[0]);
    }
}

proof fn lemma_keep_clean_codes(cs: Seq<Seq<char>>)
    requires
        forall|k: int| 0 <= k < cs.len() ==> {
            let c = #[trigger] cs[k];
            &&& c.len() > 0
            &&& !is_placeholder(c)
            &&& !spec_is_space(c[0])
            &&& !spec_is_space(c.last())
        },
    ensures
        keep_codes(cs) == cs,
    decreases cs.len(),
{
    if cs.len() > 0 {
        let init = cs.drop_last();
        assert forall|k: int| 0 <= k < init.len() implies ({
            let c = #[trigger] init[k];
            &&& c.len() > 0
            &&& !is_placeholder(c)
            &&& !spec_is_space(c[0])
            &&& !spec_is_space(c.last())
        }) by {
            assert(init[k] == cs[k]);
        }
        lemma_keep_clean_codes(init);
        let c = cs.last();
        assert(c == cs[cs.len() - 1]);
        lemma_trim_id(c);
        assert(init.push(c) =~= cs);
    }
}

proof fn lemma_code_list_id(t: Seq<char>)
    requires
        no_link_key(t),
    ensures
        crate::share::code_list(t) == t,
{
    reveal(crate::text::find);
}

/// Joining the share codes a value gives with commas, and taking the share
/// codes of that, gives the same codes; each code alone gives itself. This
/// holds for values without `sharecode=`.
pub proof fn law_share_codes_idempotent(value: Seq<char>)
    requires
        no_link_key(value),
    ensures
        spec_share_codes(join(spec_share_codes(value), ","@)) == spec_share_codes(value),
        forall|k: int| 0 <= k < spec_share_codes(value).len() ==> spec_share_codes(#[trigger] spec_share_codes(value)[k])
            == seq![spec_share_codes(value)[k]],
{
    let codes = spec_share_codes(value);
    let t = trim(value);
    lemma_no_key_trim(value);
    lemma_code_list_id(t);
    lemma_split_no_key(t);
    lemma_keep_codes_no_key(split_commas(t));
    law_share_codes_clean(value);
    lemma_keep_clean_codes(codes);
    let j = join(codes, ","@);
    if codes.len() == 0 {
        lemma_link_key_chars();
        assert(j == Seq::<char>::empty());
        assert(trim_start(j) == j);
        assert(trim_end(j) == j);
        lemma_code_list_id(j);
        assert(split_commas(j) == seq![Seq::<char>::empty()]);
        assert(clean(Seq::<char>::empty()) is None);
        let one = seq![Seq::<char>::empty()];
        assert(one.drop_last() =~= Seq::<Seq<char>>::empty());
        assert(one.last() == Seq::<char>::empty());
        assert(keep_codes(one.drop_last()) == Seq::<Seq<char>>::empty());
        assert(keep_codes(one) =~= Seq::<Seq<char>>::empty());
    } else {
        lemma_join_no_key(codes);
        lemma_join_ends(codes);
        assert(codes[0] == codes[0]);
        assert(codes.last() == codes[codes.len() - 1]);
        lemma_trim_id(j);
        lemma_code_list_id(j);
        lemma_split_join(codes);
    }
    assert forall|k: int| 0 <= k < codes.len() implies spec_share_codes(#[trigger] codes[k]) == seq![codes[k]] by {
        let c = codes[k];
        lemma_trim_id(c);
        lemma_code_list_id(c);
        lemma_split_no_comma_whole(c);
        lemma_keep_clean_codes(seq![c]);
    }
}

/// Each theme is found again by its identifier.
pub proof fn law_theme_ids_round_trip(i: int)
    requires
        0 <= i < THEME_COUNT,
    ensures
        spec_theme_index(spec_theme_id(i)) == Some(i),
{
    reveal_strlit("terminal");
    reveal_strlit("ember");
    reveal_strlit("flare");
    reveal_strlit("cobalt");
    reveal_strlit("orchid");
    reveal_strlit("wire");
    reveal_strlit("void");
    reveal_strlit("paper");
    reveal_strlit("blueprint");
    assert forall|j: int| 0 <= j < THEME_COUNT && j != i implies spec_theme_id(j) != spec_theme_id(i) by {
        assert(spec_theme_id(j)[0] != spec_theme_id(i)[0]);
    }
    let id = spec_theme_id(i);
    let w = choose|w: int| 0 <= w < THEME_COUNT && spec_theme_id(w) == id && forall|j: int| 0 <= j < w ==> spec_theme_id(j) != id;
    assert(0 <= i < THEME_COUNT && spec_theme_id(i) == id && forall|j: int| 0 <= j < i ==> spec_theme_id(j) != id);
    if w != i {
        assert(spec_theme_id(w) != id);
    }
}


proof fn lemma_del_all_contains(s: Seq<Seq<char>>, xs: Seq<Seq<char>>, y: Seq<char>)
    ensures
        del_all(s, xs).contains(y) == (s.contains(y) && !xs.contains(y)),
    decreases xs.len(),
{
    if xs.len() > 0 {
        let init = xs.drop_last();
        lemma_del_all_contains(s, init, y);
        lemma_set_del_contains(del_all(s, init), xs.last(), y);
        assert(xs =~= init.push(xs.last()));
        lemma_push_contains(init, xs.last(), y);
    }
}

/// A dropped batch leaves none of its devices sending.
pub proof fn law_discard_frees(s: StateView, devs: Seq<Seq<char>>, d: Seq<char>)
    requires
        devs.contains(d),
    ensures
        !spec_discard(s, devs).busy.contains(d),
        spec_discard(s, devs).results.len() == 0,
{
    lemma_del_all_contains(s.busy, devs, d);
}

/// A device a batch is sent to shows `sending` and the pulse; once PiShock
/// takes it, the line shows `accepted` and the same pulse.
pub proof fn law_sending_then_accepted(s: StateView, source: Seq<char>, devs: Seq<Seq<char>>, p: Pulse, d: Seq<char>)
    requires
        devs.contains(d),
    ensures
        lookup(spec_announce(s, source, devs, p).results, d) == Some("sending "@ + spec_describe(p)),
        lookup(spec_finish(spec_announce(s, source, devs, p), d, None).results, d) == Some(
            "accepted "@ + spec_describe(p),
        ),
{
    let line = "sending "@ + spec_describe(p);
    let s2 = spec_announce(s, source, devs, p);
    lemma_lookup_put_all(s.results, devs, line, d);
    let s3 = StateView { busy: set_del(s2.busy, d), ..s2 };
    assert(s3.results == s2.results);
    assert(line.subrange(0, "sending "@.len() as int) =~= "sending "@);
    assert(line.subrange("sending "@.len() as int, line.len() as int) =~= spec_describe(p));
    assert(sent_text(lookup(s3.results, d)) == spec_describe(p));
    lemma_lookup_put(s3.results, d, "accepted "@ + spec_describe(p), d);
}


proof fn lemma_distinct_push(s: Seq<Seq<char>>, x: Seq<char>)
    requires
        distinct(s),
        !s.contains(x),
    ensures
        distinct(s.push(x)),
{
    let t = s.push(x);
    assert forall|i: int, j: int| 0 <= i < j < t.len() implies t[i] != t[j] by {
        assert(t[i] == s[i]);
        if j < s.len() {
            assert(t[j] == s[j]);
        }
    }
}

proof fn lemma_distinct_init(s: Seq<Seq<char>>)
    requires
        distinct(s),
        s.len() > 0,
    ensures
        distinct(s.drop_last()),
        !s.drop_last().contains(s.last()),
{
    let init = s.drop_last();
    assert forall|i: int, j: int| 0 <= i < j < init.len() implies init[i] != init[j] by {
        assert(init[i] == s[i] && init[j] == s[j]);
    }
    if init.contains(s.last()) {
        let k = choose|k: int| 0 <= k < init.len() && init[k] == s.last();
        assert(s[k] == s[s.len() - 1]);
    }
}

proof fn lemma_set_add_distinct(s: Seq<Seq<char>>, x: Seq<char>)
    requires
        distinct(s),
    ensures
        distinct(set_add(s, x)),
{
    if !s.contains(x) {
        lemma_distinct_push(s, x);
    }
}

proof fn lemma_add_all_distinct(s: Seq<Seq<char>>, xs: Seq<Seq<char>>)
    requires
        distinct(s),
    ensures
        distinct(add_all(s, xs)),
    decreases xs.len(),
{
    if xs.len() > 0 {
        lemma_add_all_distinct(s, xs.drop_last());
        lemma_set_add_distinct(add_all(s, xs.drop_last()), xs.last());
    }
}

proof fn lemma_set_del_distinct(s: Seq<Seq<char>>, x: Seq<char>)
    requires
        distinct(s),
    ensures
        distinct(set_del(s, x)),
    decreases s.len(),
{
    if s.len() > 0 {
        let init = s.drop_last();
        lemma_distinct_init(s);
        lemma_set_del_distinct(init, x);
        if s.last() != x {
            lemma_set_del_contains(init, x, s.last());
            lemma_distinct_push(set_del(init, x), s.last());
        }
    }
}

proof fn lemma_del_all_distinct(s: Seq<Seq<char>>, xs: Seq<Seq<char>>)
    requires
        distinct(s),
    ensures
        distinct(del_all(s, xs)),
    decreases xs.len(),
{
    if xs.len() > 0 {
        lemma_del_all_distinct(s, xs.drop_last());
        lemma_set_del_distinct(del_all(s, xs.drop_last()), xs.last());
    }
}

proof fn lemma_keep_in_distinct(s: Seq<Seq<char>>, keys: Seq<Seq<char>>)
    requires
        distinct(s),
    ensures
        distinct(keep_in(s, keys)),
    decreases s.len(),
{
    if s.len() > 0 {
        let init = s.drop_last();
        lemma_distinct_init(s);
        lemma_keep_in_distinct(init, keys);
        if keys.contains(s.last()) {
            lemma_keep_in_contains(init, keys, s.last());
            lemma_distinct_push(keep_in(init, keys), s.last());
        }
    }
}

proof fn lemma_put_distinct<V>(m: Seq<(Seq<char>, V)>, k: Seq<char>, v: V)
    requires
        distinct_keys(m),
    ensures
        distinct_keys(put(m, k, v)),
{
    let t = put(m, k, v);
    match key_pos(m, k) {
        Some(i) => {
            lemma_key_pos_some(m, k);
            assert forall|a: int, b: int| 0 <= a < b < t.len() implies t[a].0 != t[b].0 by {
                assert(t[a].0 == m[a].0 && t[b].0 == m[b].0);
            }
        },
        None => {
            lemma_key_pos_none(m, k);
            assert forall|a: int, b: int| 0 <= a < b < t.len() implies t[a].0 != t[b].0 by {
                assert(t[a] == m[a]);
                if b < m.len() {
                    assert(t[b] == m[b]);
                }
            }
        },
    }
}

proof fn lemma_put_all_distinct<V>(m: Seq<(Seq<char>, V)>, xs: Seq<Seq<char>>, v: V)
    requires
        distinct_keys(m),
    ensures
        distinct_keys(put_all(m, xs, v)),
    decreases xs.len(),
{
    if xs.len() > 0 {
        lemma_put_all_distinct(m, xs.drop_last(), v);
        lemma_put_distinct(put_all(m, xs.drop_last(), v), xs.last(), v);
    }
}

proof fn lemma_keep_keys_distinct<V>(m: Seq<(Seq<char>, V)>, keys: Seq<Seq<char>>)
    requires
        distinct_keys(m),
    ensures
        distinct_keys(keep_keys(m, keys)),
        forall|k: int| 0 <= k < keep_keys(m, keys).len() ==> exists|j: int| 0 <= j < m.len() && m[j].0 == #[trigger] keep_keys(m, keys)[k].0,
    decreases m.len(),
{
    if m.len() > 0 {
        let init = m.drop_last();
        assert forall|a: int, b: int| 0 <= a < b < init.len() implies init[a].0 != init[b].0 by {
            assert(init[a] == m[a] && init[b] == m[b]);
        }
        lemma_keep_keys_distinct(init, keys);
        let r = keep_keys(m, keys);
        let ki = keep_keys(init, keys);
        assert forall|k: int| 0 <= k < ki.len() implies exists|j: int| 0 <= j < m.len() && m[j].0 == #[trigger] ki[k].0 by {
            let j = choose|j: int| 0 <= j < init.len() && init[j].0 == ki[k].0;
            assert(m[j] == init[j]);
        }
        if keys.contains(m.last().0) {
            assert forall|k: int| 0 <= k < ki.len() implies ki[k].0 != m.last().0 by {
                let j = choose|j: int| 0 <= j < init.len() && init[j].0 == ki[k].0;
                assert(m[j] == init[j]);
            }
            assert forall|a: int, b: int| 0 <= a < b < r.len() implies r[a].0 != r[b].0 by {
                assert(r[a] == ki[a]);
                if b < ki.len() {
                    assert(r[b] == ki[b]);
                }
            }
            assert forall|k: int| 0 <= k < r.len() implies exists|j: int| 0 <= j < m.len() && m[j].0 == #[trigger] r[k].0 by {
                if k < ki.len() {
                    assert(r[k] == ki[k]);
                } else {
                    assert(m[m.len() - 1].0 == r[k].0);
                }
            }
        }
    }
}

proof fn lemma_record_wf(s: StateView, path: Seq<char>, bits: u64, high: bool, live: bool, now: u64)
    requires
        s.wf(),
    ensures
        spec_record(s, path, bits, high, live, now).wf(),
{
    let s1 = spec_record(s, path, bits, high, live, now);
    let cs = s.contacts;
    let ds = s1.contacts;
    match contact_pos(cs, path) {
        Some(i) => {
            lemma_contact_pos_some(cs, path);
            assert forall|a: int, b: int| 0 <= a < b < ds.len() implies ds[a].path != ds[b].path by {
                assert(ds[a].path == cs[a].path && ds[b].path == cs[b].path);
            }
            assert forall|a: int| 0 <= a < ds.len() implies distinct(#[trigger] ds[a].routes) by {
                assert(ds[a].routes == cs[a].routes);
            }
        },
        None => {
            if exists|j: int| 0 <= j < cs.len() && cs[j].path == path {
                let j = choose|j: int| 0 <= j < cs.len() && cs[j].path == path;
                lemma_first_contact_exists(cs, path, j);
            }
            assert forall|a: int, b: int| 0 <= a < b < ds.len() implies ds[a].path != ds[b].path by {
                assert(ds[a] == cs[a]);
                if b < cs.len() {
                    assert(ds[b] == cs[b]);
                }
            }
            assert forall|a: int| 0 <= a < ds.len() implies distinct(#[trigger] ds[a].routes) by {
                if a < cs.len() {
                    assert(ds[a] == cs[a]);
                }
            }
        },
    }
}

proof fn lemma_reserve_wf(s: StateView, cands: Seq<Seq<char>>, now: u64, p: Pulse)
    requires
        s.wf(),
    ensures
        spec_reserve(s, cands, now, p).0.wf(),
{
    let devs = ready_of(s, cands, now);
    lemma_add_all_distinct(s.busy, devs);
    lemma_put_all_distinct(s.cooling, devs, hold_until(s, p, now));
}

/// The starting state keeps the invariant.
pub proof fn law_initial_state_wf()
    ensures
        initial_state().wf(),
{
}

/// A contact value, firing or not, keeps the state's invariant.
pub proof fn law_update_keeps_wf(s: StateView, path: Seq<char>, bits: u64, high: bool, live: bool, now: u64, p: Pulse)
    requires
        s.wf(),
    ensures
        spec_update(s, path, bits, high, live, now, p).0.wf(),
{
    let s1 = spec_record(s, path, bits, high, live, now);
    lemma_record_wf(s, path, bits, high, live, now);
    lemma_reserve_wf(s1, spec_targets(s1, path), now, p);
}

/// Taking devices for a test pulse keeps the state's invariant.
pub proof fn law_reserve_keeps_wf(s: StateView, cands: Seq<Seq<char>>, now: u64, p: Pulse)
    requires
        s.wf(),
    ensures
        spec_reserve(s, cands, now, p).0.wf(),
{
    lemma_reserve_wf(s, cands, now, p);
}

/// Recording a parameter snapshot keeps the state's invariant.
pub proof fn law_snapshot_keeps_wf(s: StateView, rs: Seq<(Seq<char>, u64, bool)>, started: u64)
    requires
        s.wf(),
    ensures
        spec_snapshot(s, rs, started).wf(),
    decreases rs.len(),
{
    if rs.len() > 0 {
        law_snapshot_keeps_wf(s, rs.drop_last(), started);
        let s0 = spec_snapshot(s, rs.drop_last(), started);
        let r = rs.last();
        law_update_keeps_wf(s0, r.0, r.1, r.2, false, 0, no_pulse());
    }
}

/// The end of a send, with any outcome, keeps the state's invariant.
pub proof fn law_finish_keeps_wf(s: StateView, d: Seq<char>, outcome: Option<Seq<char>>)
    requires
        s.wf(),
    ensures
        spec_finish(s, d, outcome).wf(),
{
    lemma_set_del_distinct(s.busy, d);
    let s1 = StateView { busy: set_del(s.busy, d), ..s };
    match outcome {
        None => lemma_put_distinct(s1.results, d, "accepted "@ + sent_text(lookup(s1.results, d))),
        Some(e) => lemma_put_distinct(s1.results, d, e),
    }
}

/// A new device list keeps the state's invariant.
pub proof fn law_set_devices_keeps_wf(s: StateView, ds: Seq<Seq<char>>)
    requires
        s.wf(),
    ensures
        spec_set_devices(s, ds).wf(),
{
    let s2 = spec_set_devices(s, ds);
    lemma_keep_keys_distinct(s.results, ds);
    lemma_keep_keys_distinct(s.cooling, ds);
    assert forall|a: int, b: int| 0 <= a < b < s2.contacts.len() implies s2.contacts[a].path != s2.contacts[b].path by {
        assert(s2.contacts[a].path == s.contacts[a].path && s2.contacts[b].path == s.contacts[b].path);
    }
    assert forall|a: int| 0 <= a < s2.contacts.len() implies distinct(#[trigger] s2.contacts[a].routes) by {
        lemma_keep_in_distinct(s.contacts[a].routes, ds);
    }
}

/// A connection report, and so a reset, keeps the state's invariant.
pub proof fn law_connection_keeps_wf(s: StateView, connected: bool)
    requires
        s.wf(),
    ensures
        spec_reset(s).wf(),
        spec_connection(s, connected).wf(),
{
}

/// Dropping or announcing a batch keeps the state's invariant.
pub proof fn law_batch_keeps_wf(s: StateView, source: Seq<char>, devs: Seq<Seq<char>>, p: Pulse)
    requires
        s.wf(),
    ensures
        spec_discard(s, devs).wf(),
        spec_announce(s, source, devs, p).wf(),
{
    lemma_del_all_distinct(s.busy, devs);
    lemma_put_all_distinct(s.results, devs, "sending "@ + spec_describe(p));
}

/// Toggling a route keeps the state's invariant.
pub proof fn law_toggle_route_keeps_wf(s: StateView, path: Seq<char>, device: Seq<char>)
    requires
        s.wf(),
    ensures
        spec_toggle_route(s, path, device).wf(),
{
    let s2 = spec_toggle_route(s, path, device);
    match contact_pos(s.contacts, path) {
        Some(i) => {
            lemma_contact_pos_some(s.contacts, path);
            let c = s.contacts[i];
            lemma_set_del_distinct(c.routes, device);
            lemma_set_add_distinct(c.routes, device);
            assert forall|a: int, b: int| 0 <= a < b < s2.contacts.len() implies s2.contacts[a].path != s2.contacts[b].path by {
                assert(s2.contacts[a].path == s.contacts[a].path && s2.contacts[b].path == s.contacts[b].path);
            }
            assert forall|a: int| 0 <= a < s2.contacts.len() implies distinct(#[trigger] s2.contacts[a].routes) by {
                if a != i {
                    assert(s2.contacts[a] == s.contacts[a]);
                }
            }
        },
        None => {},
    }
}


/// `now` plus `secs` seconds, in milliseconds, at most the clock's end.
pub open spec fn later_ms(now: u64, secs: int) -> u64 {
    if now + secs * 1000 > u64::MAX {
        u64::MAX
    } else {
        (now + secs * 1000) as u64
    }
}

/// A fired device is held for the pulse's seconds plus the cooldown,
/// counted in milliseconds from the moment it fired (at most to the end of
/// the clock): its cooldown entry holds that end; before it the device takes
/// no pulse, even once its send is over; from it on, once its send is over,
/// it does.
pub proof fn law_hold_is_duration_plus_cooldown(s: StateView, cands: Seq<Seq<char>>, now: u64, p: Pulse, d: Seq<char>, outcome: Option<Seq<char>>)
    requires
        spec_reserve(s, cands, now, p).1 matches Some(b) && b.0.contains(d),
    ensures
        lookup(spec_reserve(s, cands, now, p).0.cooling, d) == Some(later_ms(now, p.duration + s.cooldown)),
        forall|t: u64| t < later_ms(now, p.duration + s.cooldown) ==> !spec_ready(
            #[trigger] spec_finish(spec_reserve(s, cands, now, p).0, d, outcome),
            d,
            t,
        ),
        forall|t: u64| t >= later_ms(now, p.duration + s.cooldown) ==> spec_ready(
            #[trigger] spec_finish(spec_reserve(s, cands, now, p).0, d, outcome),
            d,
            t,
        ),
{
    let devs = ready_of(s, cands, now);
    lemma_lookup_put_all(s.cooling, devs, hold_until(s, p, now), d);
    assert forall|t: u64| t < later_ms(now, p.duration + s.cooldown) implies !spec_ready(
        #[trigger] spec_finish(spec_reserve(s, cands, now, p).0, d, outcome),
        d,
        t,
    ) by {
        law_cooldown_holds(s, cands, now, p, d, outcome, t);
    }
    assert forall|t: u64| t >= later_ms(now, p.duration + s.cooldown) implies spec_ready(
        #[trigger] spec_finish(spec_reserve(s, cands, now, p).0, d, outcome),
        d,
        t,
    ) by {
        law_cooldown_ends(s, cands, now, p, d, outcome, t);
    }
}

/// A contact that fires holds each fired device for the pulse's seconds
/// plus the cooldown, in milliseconds from the firing value's time (at most
/// to the end of the clock).
pub proof fn law_fired_hold(s: StateView, path: Seq<char>, bits: u64, high: bool, live: bool, now: u64, p: Pulse, d: Seq<char>)
    requires
        spec_update(s, path, bits, high, live, now, p).1 matches Some(b) && b.0.contains(d),
    ensures
        lookup(spec_update(s, path, bits, high, live, now, p).0.cooling, d) == Some(later_ms(now, p.duration + s.cooldown)),
{
    let s1 = spec_record(s, path, bits, high, live, now);
    let t = spec_targets(s1, path);
    law_hold_is_duration_plus_cooldown(s1, t, now, p, d, None);
}

/// A non-blank `PISHOCK_SHARE_CODE` overrides the file's `share_code`: the
/// devices begin with one per code it holds, named `PiShock` for a single
/// code and `PiShock 1`, `PiShock 2`, ... otherwise, whatever the file says.
pub proof fn law_environment_share_code(config: crate::json::Json, env: (Option<Seq<char>>, Option<Seq<char>>, Option<Seq<char>>, Option<Seq<char>>))
    requires
        spec_credentials(config, env) is Ok,
        spec_credentials(config, env)->Ok_0 is Some,
        env_value(env.3) is Some,
    ensures
        ({
            let ds = configured(spec_credentials(config, env)).1;
            let codes = spec_share_codes(env_value(env.3)->0);
            &&& ds.len() >= codes.len()
            &&& forall|k: int| 0 <= k < codes.len() ==> (#[trigger] ds[k]).1 == codes[k]
            &&& forall|k: int| 0 <= k < codes.len() ==> (#[trigger] ds[k]).0 == if codes.len() == 1 {
                "PiShock"@
            } else {
                "PiShock"@ + " "@ + crate::text::decimal((k + 1) as nat)
            }
        }),
{
    let section = spec_section(config)->Ok_0;
    let code = spec_read(section, "share_code"@, env.3)->Ok_0;
    assert(code == env_value(env.3));
    let more = crate::pishock::spec_device_list(section)->Ok_0;
    let all = crate::pishock::legacy_devices(code) + more;
    let codes = spec_share_codes(env_value(env.3)->0);
    assert(configured(spec_credentials(config, env)).1 == all);
    assert forall|k: int| 0 <= k < codes.len() implies (#[trigger] all[k]).1 == codes[k] by {
        assert(all[k] == crate::pishock::named("PiShock"@, codes)[k]);
    }
    assert forall|k: int| 0 <= k < codes.len() implies (#[trigger] all[k]).0 == if codes.len() == 1 {
        "PiShock"@
    } else {
        "PiShock"@ + " "@ + crate::text::decimal((k + 1) as nat)
    } by {
        assert(all[k] == crate::pishock::named("PiShock"@, codes)[k]);
    }
}

/// Some contact is routed exactly when some contact routes to a device that
/// is configured.
pub proof fn law_routed_iff_some_route(s: StateView)
    requires
        s.wf(),
    ensures
        spec_routed(s) <==> exists|i: int, d: Seq<char>|
            0 <= i < s.contacts.len() && s.devices.contains(d) && #[trigger] s.contacts[i].routes.contains(d),
{
    if spec_routed(s) {
        let i = choose|i: int| 0 <= i < s.contacts.len() && spec_targets(s, s.contacts[i].path).len() > 0;
        let path = s.contacts[i].path;
        lemma_first_contact_exists(s.contacts, path, i);
        lemma_contact_pos_some(s.contacts, path);
        let k = contact_pos(s.contacts, path)->0;
        let t = spec_targets(s, path);
        let d = t[0];
        assert(t.contains(d));
        lemma_keep_in_contains(s.devices, s.contacts[k].routes, d);
        assert(0 <= k < s.contacts.len() && s.devices.contains(d) && s.contacts[k].routes.contains(d));
    }
    if exists|i: int, d: Seq<char>| 0 <= i < s.contacts.len() && s.devices.contains(d) && #[trigger] s.contacts[i].routes.contains(d) {
        let (i, d) = choose|i: int, d: Seq<char>| 0 <= i < s.contacts.len() && s.devices.contains(d) && #[trigger] s.contacts[i].routes.contains(d);
        let path = s.contacts[i].path;
        assert forall|j: int| 0 <= j < i implies s.contacts[j].path != path by {}
        lemma_contact_pos_at(s.contacts, path, i);
        lemma_keep_in_contains(s.devices, s.contacts[i].routes, d);
        let t = spec_targets(s, path);
        assert(t.contains(d));
        assert(t.len() > 0);
    }
}

/// Toggling a route changes only the contact at that path: the device is
/// routed from it afterwards exactly when it was not before, its other
/// routes stay, every other contact is unchanged, and output is disarmed.
/// For an unknown path nothing changes.
pub proof fn law_toggle_route_effect(s: StateView, path: Seq<char>, device: Seq<char>)
    requires
        s.wf(),
    ensures
        ({
            let s2 = spec_toggle_route(s, path, device);
            &&& s2.contacts.len() == s.contacts.len()
            &&& s2.devices == s.devices
            &&& forall|i: int| 0 <= i < s.contacts.len() ==> (#[trigger] s2.contacts[i]).path == s.contacts[i].path
                && s2.contacts[i].bits == s.contacts[i].bits && s2.contacts[i].high == s.contacts[i].high
                && s2.contacts[i].last_live == s.contacts[i].last_live
            &&& forall|i: int, x: Seq<char>| 0 <= i < s.contacts.len() && s.contacts[i].path == path ==> (
                #[trigger] s2.contacts[i].routes.contains(x) == if x == device {
                    !s.contacts[i].routes.contains(x)
                } else {
                    s.contacts[i].routes.contains(x)
                })
            &&& forall|i: int| 0 <= i < s.contacts.len() && s.contacts[i].path != path ==> #[trigger] s2.contacts[i]
                == s.contacts[i]
            &&& (exists|i: int| 0 <= i < s.contacts.len() && s.contacts[i].path == path) ==> !s2.armed
            &&& !(exists|i: int| 0 <= i < s.contacts.len() && s.contacts[i].path == path) ==> s2 == s
        }),
{
    let s2 = spec_toggle_route(s, path, device);
    match contact_pos(s.contacts, path) {
        Some(k) => {
            lemma_contact_pos_some(s.contacts, path);
            let c = s.contacts[k];
            assert forall|i: int, x: Seq<char>| 0 <= i < s.contacts.len() && s.contacts[i].path == path implies (
                #[trigger] s2.contacts[i].routes.contains(x) == if x == device {
                    !s.contacts[i].routes.contains(x)
                } else {
                    s.contacts[i].routes.contains(x)
                }) by {
                if i != k {
                    assert(s.contacts[i].path != s.contacts[k].path);
                }
                lemma_set_del_contains(c.routes, device, x);
                lemma_set_add_contains(c.routes, device, x);
            }
            assert forall|i: int| 0 <= i < s.contacts.len() && s.contacts[i].path != path implies #[trigger] s2.contacts[i]
                == s.contacts[i] by {
                assert(i != k);
            }
        },
        None => {},
    }
}

proof fn lemma_record_not_live_keeps(s0: StateView, path: Seq<char>, bits: u64, high: bool, i: int)
    requires
        0 <= i < spec_record(s0, path, bits, high, false, 0).contacts.len(),
        spec_record(s0, path, bits, high, false, 0).contacts[i].last_live is Some,
    ensures
        i < s0.contacts.len(),
        spec_record(s0, path, bits, high, false, 0).contacts[i].path == s0.contacts[i].path,
        spec_record(s0, path, bits, high, false, 0).contacts[i].last_live == s0.contacts[i].last_live,
{
    let res = spec_record(s0, path, bits, high, false, 0);
    match contact_pos(s0.contacts, path) {
        Some(k) => {
            lemma_contact_pos_some(s0.contacts, path);
            if i == k {
                assert(res.contacts[i].path == s0.contacts[k].path);
            } else {
                assert(res.contacts[i] == s0.contacts[i]);
            }
        },
        None => {
            if i < s0.contacts.len() {
                assert(res.contacts[i] == s0.contacts[i]);
            }
        },
    }
}

proof fn lemma_snapshot_step(s0: StateView, r: (Seq<char>, u64, bool), started: u64)
    ensures
        !stale(s0, r.0, started) && has_prefix(r.0, contact_prefix()) ==> spec_update(s0, r.0, r.1, r.2, false, 0, no_pulse()).0
            == spec_record(s0, r.0, r.1, r.2, false, 0),
        !has_prefix(r.0, contact_prefix()) ==> spec_update(s0, r.0, r.1, r.2, false, 0, no_pulse()).0 == s0,
{
}

proof fn lemma_snapshot_live_from(s: StateView, rs: Seq<(Seq<char>, u64, bool)>, started: u64)
    ensures
        forall|i: int| 0 <= i < spec_snapshot(s, rs, started).contacts.len()
            && (#[trigger] spec_snapshot(s, rs, started).contacts[i]).last_live is Some ==> exists|j: int|
            0 <= j < s.contacts.len() && s.contacts[j].path == spec_snapshot(s, rs, started).contacts[i].path
                && s.contacts[j].last_live == spec_snapshot(s, rs, started).contacts[i].last_live,
    decreases rs.len(),
{
    let res = spec_snapshot(s, rs, started);
    if rs.len() == 0 {
        assert forall|i: int| 0 <= i < res.contacts.len() && (#[trigger] res.contacts[i]).last_live is Some implies exists|j: int|
            0 <= j < s.contacts.len() && s.contacts[j].path == res.contacts[i].path && s.contacts[j].last_live
                == res.contacts[i].last_live by {
            assert(s.contacts[i] == res.contacts[i]);
        }
    } else {
        let s0 = spec_snapshot(s, rs.drop_last(), started);
        lemma_snapshot_live_from(s, rs.drop_last(), started);
        let r = rs.last();
        lemma_snapshot_step(s0, r, started);
        if !stale(s0, r.0, started) && has_prefix(r.0, contact_prefix()) {
            assert(res == spec_record(s0, r.0, r.1, r.2, false, 0));
            assert forall|i: int| 0 <= i < res.contacts.len() && (#[trigger] res.contacts[i]).last_live is Some implies exists|j: int|
                0 <= j < s.contacts.len() && s.contacts[j].path == res.contacts[i].path && s.contacts[j].last_live
                    == res.contacts[i].last_live by {
                lemma_record_not_live_keeps(s0, r.0, r.1, r.2, i);
                assert(s0.contacts[i].last_live is Some);
            }
        } else {
            assert(res == s0);
        }
    }
}

/// Recording a snapshot takes each reading's value and threshold state:
/// for the last reading, of a contact that had no live value after the
/// snapshot was taken, the contact afterwards holds that value and is above
/// the threshold exactly when the reading is; so after a reading above 0.5,
/// a later value above 0.5 fires nothing.
pub proof fn law_snapshot_records_readings(s: StateView, rs: Seq<(Seq<char>, u64, bool)>, started: u64)
    requires
        rs.len() > 0,
        has_prefix(rs.last().0, contact_prefix()),
        forall|j: int| 0 <= j < s.contacts.len() && (#[trigger] s.contacts[j]).path == rs.last().0 ==> !(
            s.contacts[j].last_live matches Some(t) && t > started),
    ensures
        contact_pos(spec_snapshot(s, rs, started).contacts, rs.last().0) matches Some(i) && {
            let c = spec_snapshot(s, rs, started).contacts[i];
            &&& c.high == rs.last().2
            &&& c.bits == rs.last().1
        },
        rs.last().2 ==> forall|b: u64, live: bool, now: u64, p: Pulse| (#[trigger] spec_update(
            spec_snapshot(s, rs, started),
            rs.last().0,
            b,
            true,
            live,
            now,
            p,
        )).1 is None,
{
    let r = rs.last();
    let s0 = spec_snapshot(s, rs.drop_last(), started);
    lemma_snapshot_live_from(s, rs.drop_last(), started);
    if let Some(k) = contact_pos(s0.contacts, r.0) {
        lemma_contact_pos_some(s0.contacts, r.0);
        if s0.contacts[k].last_live is Some {
            let j = choose|j: int| 0 <= j < s.contacts.len() && s.contacts[j].path == s0.contacts[k].path
                && s.contacts[j].last_live == s0.contacts[k].last_live;
            assert(s.contacts[j].path == r.0);
        }
    }
    assert(!stale(s0, r.0, started));
    lemma_record_finds(s0, r.0, r.1, r.2, false, 0);
}


proof fn lemma_record_other(s0: StateView, path: Seq<char>, bits: u64, high: bool, q: Seq<char>)
    requires
        path != q,
        contact_pos(s0.contacts, q) is Some,
    ensures
        contact_pos(spec_record(s0, path, bits, high, false, 0).contacts, q) == contact_pos(s0.contacts, q),
        spec_record(s0, path, bits, high, false, 0).contacts[contact_pos(s0.contacts, q)->0]
            == s0.contacts[contact_pos(s0.contacts, q)->0],
{
    let rec = spec_record(s0, path, bits, high, false, 0);
    lemma_contact_pos_some(s0.contacts, q);
    let i = contact_pos(s0.contacts, q)->0;
    match contact_pos(s0.contacts, path) {
        Some(k) => {
            lemma_contact_pos_some(s0.contacts, path);
            assert(k != i);
            assert forall|j: int| 0 <= j < i implies rec.contacts[j].path != q by {
                if j == k {
                    assert(rec.contacts[j].path == path);
                } else {
                    assert(rec.contacts[j] == s0.contacts[j]);
                }
            }
            assert(rec.contacts[i] == s0.contacts[i]);
            lemma_contact_pos_at(rec.contacts, q, i);
        },
        None => {
            assert forall|j: int| 0 <= j < i implies rec.contacts[j].path != q by {
                assert(rec.contacts[j] == s0.contacts[j]);
            }
            assert(rec.contacts[i] == s0.contacts[i]);
            lemma_contact_pos_at(rec.contacts, q, i);
        },
    }
}

/// Recording a snapshot takes, for every contact parameter it reads, the
/// last reading of that parameter: unless the contact had a live value
/// after the snapshot was taken, the contact afterwards holds that
/// reading's value and is above the threshold exactly when the reading is.
pub proof fn law_snapshot_keeps_last_readings(s: StateView, rs: Seq<(Seq<char>, u64, bool)>, started: u64, k: int)
    requires
        0 <= k < rs.len(),
        has_prefix(rs[k].0, contact_prefix()),
        forall|j: int| k < j < rs.len() ==> (#[trigger] rs[j]).0 != rs[k].0,
        forall|j: int| 0 <= j < s.contacts.len() && (#[trigger] s.contacts[j]).path == rs[k].0 ==> !(
            s.contacts[j].last_live matches Some(t) && t > started),
    ensures
        contact_pos(spec_snapshot(s, rs, started).contacts, rs[k].0) matches Some(i) && {
            let c = spec_snapshot(s, rs, started).contacts[i];
            &&& c.high == rs[k].2
            &&& c.bits == rs[k].1
        },
    decreases rs.len(),
{
    if k == rs.len() - 1 {
        law_snapshot_records_readings(s, rs, started);
    } else {
        let init = rs.drop_last();
        assert(init[k] == rs[k]);
        assert forall|j: int| k < j < init.len() implies (#[trigger] init[j]).0 != init[k].0 by {
            assert(init[j] == rs[j]);
        }
        law_snapshot_keeps_last_readings(s, init, started, k);
        let s0 = spec_snapshot(s, init, started);
        let r = rs.last();
        assert(r == rs[rs.len() - 1]);
        lemma_snapshot_step(s0, r, started);
        if !stale(s0, r.0, started) && has_prefix(r.0, contact_prefix()) {
            lemma_record_other(s0, r.0, r.1, r.2, rs[k].0);
        }
    }
}


/// A snapshot never overwrites a newer live value: a contact whose last
/// live value came after the snapshot was taken is left exactly as it was.
pub proof fn law_snapshot_keeps_newer_live(s: StateView, rs: Seq<(Seq<char>, u64, bool)>, started: u64, q: Seq<char>)
    requires
        contact_pos(s.contacts, q) matches Some(i) && (s.contacts[i].last_live matches Some(t) && t > started),
    ensures
        contact_pos(spec_snapshot(s, rs, started).contacts, q) == contact_pos(s.contacts, q),
        spec_snapshot(s, rs, started).contacts[contact_pos(s.contacts, q)->0] == s.contacts[contact_pos(s.contacts, q)->0],
    decreases rs.len(),
{
    if rs.len() > 0 {
        let init = rs.drop_last();
        law_snapshot_keeps_newer_live(s, init, started, q);
        let s0 = spec_snapshot(s, init, started);
        let r = rs.last();
        lemma_snapshot_step(s0, r, started);
        if r.0 != q && !stale(s0, r.0, started) && has_prefix(r.0, contact_prefix()) {
            lemma_record_other(s0, r.0, r.1, r.2, q);
        }
    }
}

/// The devices a contact fires are exactly the configured devices it is
/// routed to; an unknown contact fires none.
pub proof fn law_targets_exact(s: StateView, path: Seq<char>, d: Seq<char>)
    requires
        s.wf(),
    ensures
        forall|i: int| 0 <= i < s.contacts.len() && (#[trigger] s.contacts[i]).path == path ==> (
            spec_targets(s, path).contains(d) <==> (s.devices.contains(d) && s.contacts[i].routes.contains(d))),
        !(exists|i: int| 0 <= i < s.contacts.len() && s.contacts[i].path == path) ==> spec_targets(s, path).len() == 0,
{
    match contact_pos(s.contacts, path) {
        Some(k) => {
            lemma_contact_pos_some(s.contacts, path);
            lemma_keep_in_contains(s.devices, s.contacts[k].routes, d);
            assert forall|i: int| 0 <= i < s.contacts.len() && (#[trigger] s.contacts[i]).path == path implies i == k by {
                if i != k {
                    assert(s.contacts[i].path != s.contacts[k].path);
                }
            }
        },
        None => {},
    }
}

} // verus!
