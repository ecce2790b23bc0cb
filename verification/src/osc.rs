//! The OSCQuery side: the mDNS advertisement packet, and reading HTTP
//! requests and VRChat's host information.
use vstd::prelude::*;

verus! {

/// The pieces of `s` between dots.
pub open spec fn split_dots(s: Seq<u8>) -> Seq<Seq<u8>>
    decreases s.len(),
{
    if s.len() == 0 {
        seq![Seq::empty()]
    } else {
        let init = split_dots(s.drop_last());
        if s.last() == 46u8 {
            init.push(Seq::empty())
        } else {
            init.update(init.len() - 1, init.last().push(s.last()))
        }
    }
}

/// A label after its length byte; nothing for an empty label.
pub open spec fn label_bytes(l: Seq<u8>) -> Seq<u8> {
    if l.len() == 0 {
        Seq::empty()
    } else {
        seq![(l.len() % 256) as u8] + l
    }
}

/// The non-empty labels, each after its length byte.
pub open spec fn encode_labels(labels: Seq<Seq<u8>>) -> Seq<u8>
    decreases labels.len(),
{
    if labels.len() == 0 {
        Seq::empty()
    } else {
        encode_labels(labels.drop_last()) + label_bytes(labels.last())
    }
}

/// A DNS name: its dot-separated labels, each after its length, then 0.
pub open spec fn dns_name(name: Seq<u8>) -> Seq<u8> {
    encode_labels(split_dots(name)).push(0u8)
}

/// A 16-bit number, most significant byte first.
pub open spec fn be16(x: nat) -> Seq<u8> {
    seq![((x / 256) % 256) as u8, (x % 256) as u8]
}

/// A 32-bit number, most significant byte first.
pub open spec fn be32(x: nat) -> Seq<u8> {
    be16((x / 65536) % 65536) + be16(x % 65536)
}

/// The time-to-live of the advertised records, in seconds.
pub const MDNS_TTL: u32 = 120;

/// A resource record: name, type, class, time-to-live, data length, data.
pub open spec fn dns_record(name: Seq<u8>, rr_type: nat, class: nat, rdata: Seq<u8>) -> Seq<u8> {
    dns_name(name) + be16(rr_type) + be16(class) + be32(MDNS_TTL as nat) + be16(rdata.len() % 65536) + rdata
}

/// The advertised service type, `_oscjson._tcp.local`.
pub open spec fn service() -> Seq<u8> {
    seq![95u8, 111, 115, 99, 106, 115, 111, 110, 46, 95, 116, 99, 112, 46, 108, 111, 99, 97, 108]
}

/// The text record's data, `txtvers=1` after its length.
pub open spec fn txt_data() -> Seq<u8> {
    seq![9u8, 116, 120, 116, 118, 101, 114, 115, 61, 49]
}

/// The message header of an authoritative answer with four records.
pub open spec fn mdns_header() -> Seq<u8> {
    be16(0) + be16(0x8400) + be16(0) + be16(1) + be16(0) + be16(3)
}

/// The mDNS announcement of an OSCQuery service `name` on `host` at
/// `port`: a pointer from the service type to the instance, the instance's
/// port and host, its text record, and the host's loopback address.
pub open spec fn spec_advertisement(name: Seq<u8>, host: Seq<u8>, port: u16) -> Seq<u8> {
    let instance = name.push(46u8) + service();
    mdns_header()
        + dns_record(service(), 12, 1, dns_name(instance))
        + dns_record(instance, 33, 0x8001, seq![0u8, 0, 0, 0] + be16(port as nat) + dns_name(host))
        + dns_record(instance, 16, 0x8001, txt_data())
        + dns_record(host, 1, 0x8001, seq![127u8, 0, 0, 1])
}

/// Appends `x` as two bytes, most significant first.
fn push_be16(out: &mut Vec<u8>, x: u16)
    ensures
        final(out)@ == old(out)@ + be16(x as nat),
{
    out.push((x / 256) as u8);
    out.push((x % 256) as u8);
    assert(final(out)@ =~= old(out)@ + be16(x as nat));
}

/// Appends all of `bytes`.
fn push_all(out: &mut Vec<u8>, bytes: &[u8])
    ensures
        final(out)@ == old(out)@ + bytes@,
{
    let mut i: usize = 0;
    while i < bytes.len()
        invariant
            i <= bytes@.len(),
            out@ == old(out)@ + bytes@.take(i as int),
        decreases bytes@.len() - i,
    {
        out.push(bytes[i]);
        i += 1;
        assert(out@ =~= old(out)@ + bytes@.take(i as int));
    }
    assert(bytes@.take(i as int) =~= bytes@);
}

proof fn lemma_split_dots_nonempty(s: Seq<u8>)
    ensures
        split_dots(s).len() >= 1,
    decreases s.len(),
{
    if s.len() > 0 {
        lemma_split_dots_nonempty(s.drop_last());
    }
}

/// Appends the label `name[from..to]` after its length, unless it is empty.
fn push_label(out: &mut Vec<u8>, name: &[u8], from: usize, to: usize)
    requires
        from <= to <= name@.len(),
    ensures
        final(out)@ == old(out)@ + label_bytes(name@.subrange(from as int, to as int)),
{
    let ghost l = name@.subrange(from as int, to as int);
    if from < to {
        out.push(((to - from) % 256) as u8);
        let mut i = from;
        while i < to
            invariant
                from <= i <= to <= name@.len(),
                out@ == old(out)@ + seq![((to - from) % 256) as u8] + name@.subrange(from as int, i as int),
            decreases to - i,
        {
            out.push(name[i]);
            i += 1;
            assert(out@ =~= old(out)@ + seq![((to - from) % 256) as u8] + name@.subrange(from as int, i as int));
        }
    } else {
        assert(out@ =~= old(out)@ + Seq::<u8>::empty());
    }
}

/// Appends `name` as a DNS name.
fn push_dns_name(out: &mut Vec<u8>, name: &[u8])
    ensures
        final(out)@ == old(out)@ + dns_name(name@),
{
    let ghost start = out@;
    let mut from: usize = 0;
    let mut i: usize = 0;
    assert(name@.subrange(0, 0) =~= Seq::<u8>::empty());
    assert(split_dots(Seq::<u8>::empty()).drop_last() =~= Seq::<Seq<u8>>::empty());
    while i < name.len()
        invariant
            from <= i <= name@.len(),
            split_dots(name@.subrange(0, i as int)).last() == name@.subrange(from as int, i as int),
            out@ == start + encode_labels(split_dots(name@.subrange(0, i as int)).drop_last()),
        decreases name@.len() - i,
    {
        let ghost before = name@.subrange(0, i as int);
        let ghost after = name@.subrange(0, i + 1);
        proof {
            assert(after.drop_last() =~= before);
            assert(after.last() == name@[i as int]);
            lemma_split_dots_nonempty(before);
        }
        if name[i] == 46u8 {
            push_label(out, name, from, i);
            proof {
                let sb = split_dots(before);
                assert(split_dots(after).drop_last() =~= sb);
                assert(sb =~= sb.drop_last().push(sb.last()));
                assert(out@ =~= start + encode_labels(sb));
                assert(name@.subrange(i + 1, i + 1) =~= Seq::<u8>::empty());
            }
            from = i + 1;
        } else {
            proof {
                let sb = split_dots(before);
                assert(split_dots(after).drop_last() =~= sb.drop_last());
                assert(name@.subrange(from as int, i + 1) =~= name@.subrange(from as int, i as int).push(name@[i as int]));
            }
        }
        i += 1;
    }
    push_label(out, name, from, name.len());
    proof {
        let whole = name@.subrange(0, name@.len() as int);
        assert(whole =~= name@);
        let sw = split_dots(whole);
        lemma_split_dots_nonempty(whole);
        assert(sw =~= sw.drop_last().push(sw.last()));
        assert(out@ =~= start + encode_labels(sw));
    }
    out.push(0u8);
}

/// Appends a resource record.
fn push_record(out: &mut Vec<u8>, name: &[u8], rr_type: u16, class: u16, rdata: &[u8])
    ensures
        final(out)@ == old(out)@ + dns_record(name@, rr_type as nat, class as nat, rdata@),
{
    push_dns_name(out, name);
    push_be16(out, rr_type);
    push_be16(out, class);
    push_be16(out, 0);
    push_be16(out, 120);
    push_be16(out, (rdata.len() % 65536) as u16);
    push_all(out, rdata);
    assert(be32(MDNS_TTL as nat) =~= be16(0) + be16(120));
    assert(final(out)@ =~= old(out)@ + dns_record(name@, rr_type as nat, class as nat, rdata@));
}

/// The bytes of `service()`.
fn service_bytes() -> (v: Vec<u8>)
    ensures
        v@ == service(),
{
    let v: Vec<u8> = vec![95u8, 111, 115, 99, 106, 115, 111, 110, 46, 95, 116, 99, 112, 46, 108, 111, 99, 97, 108];
    assert(v@ =~= service());
    v
}

/// The mDNS announcement of the OSCQuery service `name` on `host` at
/// `port`, with the host at 127.0.0.1.
pub fn advertisement(name: &[u8], host: &[u8], port: u16) -> (packet: Vec<u8>)
    ensures
        packet@ == spec_advertisement(name@, host@, port),
{
    let kind = service_bytes();
    let mut instance: Vec<u8> = Vec::new();
    push_all(&mut instance, name);
    instance.push(46u8);
    push_all(&mut instance, kind.as_slice());
    assert(instance@ =~= name@.push(46u8) + service());
    let mut packet: Vec<u8> = Vec::new();
    push_be16(&mut packet, 0);
    push_be16(&mut packet, 0x8400);
    push_be16(&mut packet, 0);
    push_be16(&mut packet, 1);
    push_be16(&mut packet, 0);
    push_be16(&mut packet, 3);
    assert(packet@ =~= mdns_header());
    let mut ptr: Vec<u8> = Vec::new();
    push_dns_name(&mut ptr, instance.as_slice());
    assert(ptr@ =~= dns_name(instance@));
    push_record(&mut packet, kind.as_slice(), 12, 1, ptr.as_slice());
    let mut srv: Vec<u8> = vec![0u8, 0, 0, 0];
    push_be16(&mut srv, port);
    push_dns_name(&mut srv, host);
    assert(srv@ =~= seq![0u8, 0, 0, 0] + be16(port as nat) + dns_name(host@));
    push_record(&mut packet, instance.as_slice(), 33, 0x8001, srv.as_slice());
    let txt: Vec<u8> = vec![9u8, 116, 120, 116, 118, 101, 114, 115, 61, 49];
    assert(txt@ =~= txt_data());
    push_record(&mut packet, instance.as_slice(), 16, 0x8001, txt.as_slice());
    let lo: Vec<u8> = vec![127u8, 0, 0, 1];
    push_record(&mut packet, host, 1, 0x8001, lo.as_slice());
    assert(lo@ =~= seq![127u8, 0, 0, 1]);
    packet
}


/// Whether `data` holds the blank line that ends HTTP request headers.
pub open spec fn has_header_end(data: Seq<u8>) -> bool {
    exists|i: int| 0 <= i && i + 4 <= data.len() && #[trigger] data.subrange(i, i + 4) == seq![13u8, 10, 13, 10]
}

/// Whether `data` holds the blank line that ends HTTP request headers.
pub fn header_complete(data: &[u8]) -> (r: bool)
    ensures
        r == has_header_end(data@),
{
    if data.len() < 4 {
        return false;
    }
    let mut i: usize = 0;
    let last = data.len() - 4;
    while i <= last
        invariant
            last == data@.len() - 4,
            i <= last + 1,
            forall|j: int| 0 <= j < i && j + 4 <= data@.len() ==> #[trigger] data@.subrange(j, j + 4) != seq![13u8, 10, 13, 10],
        decreases last + 1 - i,
    {
        if data[i] == 13 && data[i + 1] == 10 && data[i + 2] == 13 && data[i + 3] == 10 {
            assert(data@.subrange(i as int, i + 4) =~= seq![13u8, 10, 13, 10]);
            return true;
        }
        assert(data@.subrange(i as int, i + 4)[0] == data@[i as int]);
        assert(data@.subrange(i as int, i + 4)[1] == data@[i + 1]);
        assert(data@.subrange(i as int, i + 4)[2] == data@[i + 2]);
        assert(data@.subrange(i as int, i + 4)[3] == data@[i + 3]);
        i += 1;
    }
    false
}

/// The pieces of `s` between white-space characters.
pub open spec fn split_spaces(s: Seq<char>) -> Seq<Seq<char>>
    decreases s.len(),
{
    if s.len() == 0 {
        seq![Seq::empty()]
    } else {
        let init = split_spaces(s.drop_last());
        if crate::text::spec_is_space(s.last()) {
            init.push(Seq::empty())
        } else {
            init.update(init.len() - 1, init.last().push(s.last()))
        }
    }
}

/// The non-empty pieces, in order.
pub open spec fn non_empty(pieces: Seq<Seq<char>>) -> Seq<Seq<char>>
    decreases pieces.len(),
{
    if pieces.len() == 0 {
        pieces
    } else if pieces.last().len() == 0 {
        non_empty(pieces.drop_last())
    } else {
        non_empty(pieces.drop_last()).push(pieces.last())
    }
}

/// The words of `s`, as `str::split_whitespace` yields them.
pub open spec fn words(s: Seq<char>) -> Seq<Seq<char>> {
    non_empty(split_spaces(s))
}

/// The target of an HTTP request: its second word, or `/`.
pub open spec fn request_target(request: Seq<char>) -> Seq<char> {
    if words(request).len() > 1 {
        words(request)[1]
    } else {
        "/"@
    }
}

proof fn lemma_split_spaces_nonempty(s: Seq<char>)
    ensures
        split_spaces(s).len() >= 1,
    decreases s.len(),
{
    if s.len() > 0 {
        lemma_split_spaces_nonempty(s.drop_last());
    }
}

/// The words of `s`.
pub fn words_of(s: &str) -> (w: Vec<String>)
    ensures
        crate::text::views(w@) == words(s@),
{
    let chars = crate::text::chars_of(s);
    let mut w: Vec<String> = Vec::new();
    let mut start: usize = 0;
    let mut i: usize = 0;
    assert(chars@.subrange(0, 0) =~= Seq::<char>::empty());
    assert(split_spaces(Seq::<char>::empty()).drop_last() =~= Seq::<Seq<char>>::empty());
    while i < chars.len()
        invariant
            start <= i <= chars@.len(),
            split_spaces(chars@.subrange(0, i as int)).last() == chars@.subrange(start as int, i as int),
            crate::text::views(w@) == non_empty(split_spaces(chars@.subrange(0, i as int)).drop_last()),
        decreases chars@.len() - i,
    {
        let ghost before = chars@.subrange(0, i as int);
        let ghost after = chars@.subrange(0, i + 1);
        proof {
            assert(after.drop_last() =~= before);
            assert(after.last() == chars@[i as int]);
            lemma_split_spaces_nonempty(before);
        }
        if crate::text::is_space(chars[i]) {
            if start < i {
                let ghost old_w = w@;
                let word = crate::text::string_of(&chars, start, i);
                w.push(word);
                assert(crate::text::views(w@) =~= crate::text::views(old_w).push(word@));
            }
            proof {
                let sb = split_spaces(before);
                assert(split_spaces(after).drop_last() =~= sb);
                assert(sb =~= sb.drop_last().push(sb.last()));
                assert(chars@.subrange(i + 1, i + 1) =~= Seq::<char>::empty());
            }
            start = i + 1;
        } else {
            proof {
                let sb = split_spaces(before);
                assert(split_spaces(after).drop_last() =~= sb.drop_last());
                assert(chars@.subrange(start as int, i + 1) =~= chars@.subrange(start as int, i as int).push(chars@[i as int]));
            }
        }
        i += 1;
    }
    if start < i {
        let ghost old_w = w@;
        let word = crate::text::string_of(&chars, start, i);
        w.push(word);
        assert(crate::text::views(w@) =~= crate::text::views(old_w).push(word@));
    }
    proof {
        let whole = chars@.subrange(0, i as int);
        assert(whole =~= s@);
        let sw = split_spaces(whole);
        lemma_split_spaces_nonempty(whole);
        assert(sw =~= sw.drop_last().push(sw.last()));
    }
    w
}

/// Whether an HTTP request asks for the host information, that is, its
/// target is `/?HOST_INFO`.
pub fn wants_host_info(request: &str) -> (r: bool)
    ensures
        r == (request_target(request@) == "/?HOST_INFO"@),
{
    let w = words_of(request);
    if w.len() > 1 {
        assert(crate::text::views(w@)[1] == w@[1]@);
        crate::text::same_text(w[1].as_str(), "/?HOST_INFO")
    } else {
        proof {
            reveal_strlit("/");
            reveal_strlit("/?HOST_INFO");
            assert("/"@.len() != "/?HOST_INFO"@.len());
        }
        false
    }
}

/// The names VRChat's OSCQuery host information carries begin with this.
pub open spec fn vrchat_prefix() -> Seq<char> {
    "VRChat-Client-"@
}

/// Whether a host information name is VRChat's.
pub fn is_vrchat_name(name: &str) -> (r: bool)
    ensures
        r == crate::text::has_prefix(name@, vrchat_prefix()),
{
    crate::text::starts_with(name, "VRChat-Client-")
}


/// What an incoming OSC message is about.
pub enum OscTarget {
    /// The avatar was changed.
    AvatarChange,
    /// A contact parameter's value.
    Contact,
    /// Anything else, which is ignored.
    Other,
}

/// The address of the avatar-change message.
pub open spec fn avatar_change_addr() -> Seq<char> {
    "/avatar/change"@
}

/// What a message sent to `addr` is about.
pub open spec fn spec_message_target(addr: Seq<char>) -> OscTarget {
    if addr == avatar_change_addr() {
        OscTarget::AvatarChange
    } else if crate::text::has_prefix(addr, crate::state::contact_prefix()) {
        OscTarget::Contact
    } else {
        OscTarget::Other
    }
}

/// What a message sent to `addr` is about.
pub fn message_target(addr: &str) -> (t: OscTarget)
    ensures
        t == spec_message_target(addr@),
{
    if crate::text::same_text(addr, "/avatar/change") {
        OscTarget::AvatarChange
    } else if crate::state::is_contact_path(addr) {
        OscTarget::Contact
    } else {
        OscTarget::Other
    }
}

/// Whether an address (4 bytes for IPv4, 16 for IPv6) is a loopback
/// address: 127.0.0.0/8 or ::1.
pub open spec fn is_loopback(a: Seq<u8>) -> bool {
    ||| a.len() == 4 && a[0] == 127u8
    ||| a.len() == 16 && a[15] == 1u8 && forall|i: int| 0 <= i < 15 ==> a[i] == 0u8
}

/// Whether OSC from `peer` is taken: it comes from this machine, through a
/// loopback address or one of the machine's own addresses.
pub open spec fn spec_peer_allowed(peer: Seq<u8>, locals: Seq<Seq<u8>>) -> bool {
    is_loopback(peer) || locals.contains(peer)
}

/// Whether two byte strings are equal.
fn same_bytes(a: &[u8], b: &[u8]) -> (r: bool)
    ensures
        r == (a@ == b@),
{
    if a.len() != b.len() {
        return false;
    }
    let mut i: usize = 0;
    while i < a.len()
        invariant
            i <= a@.len(),
            a@.len() == b@.len(),
            forall|j: int| 0 <= j < i ==> a@[j] == b@[j],
        decreases a@.len() - i,
    {
        if a[i] != b[i] {
            return false;
        }
        i += 1;
    }
    assert(a@ =~= b@);
    true
}

/// Whether OSC from `peer` is taken, given the machine's own addresses.
pub fn peer_allowed(peer: &[u8], locals: &Vec<Vec<u8>>) -> (r: bool)
    ensures
        r == spec_peer_allowed(peer@, locals@.map_values(|v: Vec<u8>| v@)),
{
    let ghost ls = locals@.map_values(|v: Vec<u8>| v@);
    let mut loopback = false;
    if peer.len() == 4 {
        loopback = peer[0] == 127;
    } else if peer.len() == 16 {
        let mut zeros = true;
        let mut i: usize = 0;
        while i < 15
            invariant
                i <= 15,
                peer@.len() == 16,
                zeros == (forall|j: int| 0 <= j < i ==> peer@[j] == 0u8),
            decreases 15 - i,
        {
            if peer[i] != 0 {
                zeros = false;
            }
            i += 1;
        }
        loopback = zeros && peer[15] == 1;
    }
    assert(loopback == is_loopback(peer@));
    if loopback {
        return true;
    }
    let mut k: usize = 0;
    while k < locals.len()
        invariant
            k <= locals@.len(),
            ls == locals@.map_values(|v: Vec<u8>| v@),
            forall|j: int| 0 <= j < k ==> ls[j] != peer@,
        decreases locals@.len() - k,
    {
        if same_bytes(locals[k].as_slice(), peer) {
            assert(ls[k as int] == peer@);
            return true;
        }
        k += 1;
    }
    false
}

} // verus!
