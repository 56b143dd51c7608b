//! Finding receivers on the local network: what is asked and answered by
//! datagram, and which answers are listed.

use vstd::prelude::*;
use vstd::slice::slice_subrange;
use vstd::string::*;
use vstd::utf8::*;

use crate::outside::{lossy, lossy_text};
use crate::protocol::{DEFAULT_PORT, DISCOVERY_MAGIC, DISCOVERY_REPLY_PREFIX, VERSION};
use crate::sort::{
    first_of_each,
    in_order,
    law_no_key_is_lost,
    law_no_key_stands_twice,
    lemma_filter_places,
    lemma_first_of_each_in,
    rearranged,
    reversed,
    sort,
    without_doubles,
    Keyed,
    Named,
};
use crate::text::{
    decimal,
    is_word,
    law_decimal_read_back,
    lemma_decimal,
    lemma_encode_concat,
    lemma_words_of_word,
    parse_u16,
    parsed_u16,
    push_decimal,
    same_text,
    split_words,
    text_le,
    texts,
    words,
};

verus! {

fn same_bytes(a: &[u8], b: &[u8]) -> (r: bool)
    ensures
        r == (a@ == b@),
{
    if a.len() != b.len() {
        return false;
    }
    let mut i: usize = 0;
    while i < a.len()
        invariant
            i <= a@.len() == b@.len(),
            forall|j: int| 0 <= j < i ==> a@[j] == b@[j],
        decreases a@.len() - i,
    {
        if a[i] != b[i] {
            return false;
        }
        i = i + 1;
    }
    assert(a@ =~= b@);
    true
}

// ---------------------------------------------------------------------------
// Question and answer
// ---------------------------------------------------------------------------

/// Whether a datagram asks for receivers.
pub fn is_question(msg: &[u8]) -> (r: bool)
    ensures
        r == (msg@ == encode_utf8(DISCOVERY_MAGIC@)),
{
    same_bytes(msg, DISCOVERY_MAGIC.as_bytes())
}

/// What a receiver answers: its name, its port and its version.
pub open spec fn reply_words(host: Seq<char>, port: u16) -> Seq<char> {
    DISCOVERY_REPLY_PREFIX@ + (host + seq![' '] + (decimal(port as nat) + seq![' '] + decimal(
        VERSION as nat,
    )))
}

/// What a receiver answers.
pub fn reply_text(host: &str, port: u16) -> (r: String)
    ensures
        r@ == reply_words(host@, port),
{
    let mut r = DISCOVERY_REPLY_PREFIX.to_owned();
    r.append(host);
    r.push(' ');
    push_decimal(&mut r, port as u64);
    r.push(' ');
    push_decimal(&mut r, VERSION as u64);
    assert(r@ =~= reply_words(host@, port));
    r
}

/// What the text of an answer says: the first word is the name and the second the
/// port, where they are there and the second is one.
pub open spec fn peer_words(rest: Seq<char>) -> (Seq<char>, u16) {
    let w = words(rest);
    (
        if w.len() > 0 {
            w[0]
        } else {
            "?"@
        },
        if w.len() > 1 && parsed_u16(w[1]) is Some {
            parsed_u16(w[1])->0
        } else {
            DEFAULT_PORT
        },
    )
}

/// What the text of an answer says: name and port.
pub fn peer_of_text(rest: &str) -> (r: (String, u16))
    ensures
        (r.0@, r.1) == peer_words(rest@),
{
    let w = split_words(rest);
    assert(forall|i: int| 0 <= i < w@.len() ==> texts(w@)[i] == (#[trigger] w@[i])@);
    let name: String = if w.len() > 0 {
        w[0].clone()
    } else {
        "?".to_owned()
    };
    let port: u16 = if w.len() > 1 {
        match parse_u16(w[1].as_str()) {
            Some(p) => p,
            None => DEFAULT_PORT,
        }
    } else {
        DEFAULT_PORT
    };
    (name, port)
}

/// Whether a datagram is an answer.
pub open spec fn is_reply(msg: Seq<u8>) -> bool {
    encode_utf8(DISCOVERY_REPLY_PREFIX@).is_prefix_of(msg)
}

/// What stands behind the beginning that all answers have.
pub open spec fn reply_rest(msg: Seq<u8>) -> Seq<u8> {
    msg.skip(encode_utf8(DISCOVERY_REPLY_PREFIX@).len() as int)
}

/// The name and the port that an answer gives; `None` where the datagram is no
/// answer.
pub fn parse_reply(msg: &[u8]) -> (r: Option<(String, u16)>)
    ensures
        r is Some <==> is_reply(msg@),
        r matches Some(p) ==> (p.0@, p.1) == peer_words(lossy(reply_rest(msg@))),
        r is Some && valid_utf8(reply_rest(msg@)) ==> lossy(reply_rest(msg@)) == decode_utf8(
            reply_rest(msg@),
        ),
{
    let prefix: &[u8] = DISCOVERY_REPLY_PREFIX.as_bytes();
    if msg.len() < prefix.len() {
        return None;
    }
    let head: &[u8] = slice_subrange(msg, 0, prefix.len());
    if !same_bytes(head, prefix) {
        assert(msg@.take(prefix@.len() as int) =~= head@);
        return None;
    }
    assert(msg@.take(prefix@.len() as int) =~= head@);
    let rest: &[u8] = slice_subrange(msg, prefix.len(), msg.len());
    assert(rest@ =~= reply_rest(msg@));
    Some(peer_of_text(lossy_text(rest).as_str()))
}

/// What a receiver answers is understood: whoever asked learns its name, where it
/// is one word, and its port.
pub proof fn law_answer_is_understood(host: Seq<char>, port: u16)
    requires
        is_word(host),
    ensures
        is_reply(encode_utf8(reply_words(host, port))),
        valid_utf8(reply_rest(encode_utf8(reply_words(host, port)))),
        peer_words(decode_utf8(reply_rest(encode_utf8(reply_words(host, port))))) == (host, port),
{
    let prefix = DISCOVERY_REPLY_PREFIX@;
    let number = decimal(port as nat);
    let version = decimal(VERSION as nat);
    let numbers = number + seq![' '] + version;
    let text = host + seq![' '] + numbers;
    let msg = encode_utf8(reply_words(host, port));
    lemma_encode_concat(prefix, text);
    assert(msg.take(encode_utf8(prefix).len() as int) =~= encode_utf8(prefix));
    assert(reply_rest(msg) =~= encode_utf8(text));
    encode_utf8_valid_utf8(text);
    encode_utf8_decode_utf8(text);
    lemma_decimal(port as nat);
    assert(is_word(number)) by {
        assert forall|i: int| 0 <= i < number.len() implies !crate::text::is_white(
            #[trigger] number[i],
        ) by {
            assert(crate::text::is_digit(number[i]));
        }
    }
    lemma_words_of_word(host, numbers);
    lemma_words_of_word(number, version);
    law_decimal_read_back(port);
    let w = words(text);
    assert(w[0] == host);
    assert(w[1] == number);
}

// ---------------------------------------------------------------------------
// The list of receivers
// ---------------------------------------------------------------------------

/// A receiver that answered: its address as text, with the port and without, and
/// the port and the name that it gave.
#[derive(Debug)]
pub struct Peer {
    pub addr: String,
    pub ip: String,
    pub port: u16,
    pub name: String,
}

/// An address with its port, as text; `v6` says that it is of the sort that is
/// put in brackets.
pub open spec fn addr_words(ip: Seq<char>, v6: bool, port: u16) -> Seq<char> {
    (if v6 {
        seq!['['] + ip + seq![']']
    } else {
        ip
    }) + seq![':'] + decimal(port as nat)
}

impl Peer {
    /// A receiver at an address, as it answered.
    pub fn new(ip: String, v6: bool, port: u16, name: String) -> (r: Peer)
        ensures
            r.addr@ == addr_words(ip@, v6, port),
            r.ip@ == ip@,
            r.port == port,
            r.name@ == name@,
    {
        let mut addr = String::new();
        if v6 {
            addr.push('[');
            addr.append(ip.as_str());
            addr.push(']');
            assert(addr@ =~= seq!['['] + ip@ + seq![']']);
        } else {
            addr.append(ip.as_str());
            assert(addr@ =~= ip@);
        }
        addr.push(':');
        push_decimal(&mut addr, port as u64);
        assert(addr@ =~= addr_words(ip@, v6, port));
        Peer { addr, ip, port, name }
    }
}

/// Receivers are listed by address.
impl Keyed for Peer {
    open spec fn key(&self) -> (bool, Seq<char>) {
        (false, self.addr@)
    }
}

impl Named for Peer {
    fn rank(&self) -> (r: bool) {
        false
    }

    fn name(&self) -> (r: &str) {
        self.addr.as_str()
    }
}

/// Those that are not this machine itself.
pub open spec fn not_mine(s: Seq<Peer>, mine: Seq<Seq<char>>) -> Seq<Peer> {
    s.filter(|p: Peer| !mine.contains(p.ip@))
}

/// Whether `listed` is the list of the receivers that answered: put in order by
/// address, those of one address as they answered, of them only the first, and
/// without this machine itself.
pub open spec fn lists(listed: Seq<Peer>, answered: Seq<Peer>, mine: Seq<Seq<char>>) -> bool {
    exists|s: Seq<Peer>|
        in_order(s) && #[trigger] rearranged(answered, s) && listed == not_mine(
            first_of_each(s),
            mine,
        )
}

/// Whether a text is among others.
pub fn is_among(text: &str, others: &Vec<String>) -> (r: bool)
    ensures
        r == texts(others@).contains(text@),
{
    let mut i: usize = 0;
    while i < others.len()
        invariant
            i <= others@.len(),
            forall|j: int| 0 <= j < i ==> texts(others@)[j] != text@,
        decreases others@.len() - i,
    {
        assert(texts(others@)[i as int] == others@[i as int]@);
        if same_text(others[i].as_str(), text) {
            assert(texts(others@).contains(text@));
            return true;
        }
        i = i + 1;
    }
    false
}

/// The list of the receivers that answered: by address, each address once, and
/// without this machine itself, which hears its own question.
pub fn list_peers(answered: Vec<Peer>, mine: &Vec<String>) -> (r: Vec<Peer>)
    ensures
        lists(r@, answered@, texts(mine@)),
{
    let ghost all = answered@;
    let ghost own = texts(mine@);
    let sorted = sort(answered);
    let ghost s = sorted@;
    let mut left = without_doubles(sorted);
    let ghost each = left@;
    let mut out: Vec<Peer> = Vec::new();
    assert(not_mine(left@, own) + out@.reverse() =~= not_mine(each, own));
    while left.len() > 0
        invariant
            own == texts(mine@),
            not_mine(left@, own) + out@.reverse() == not_mine(each, own),
        decreases left@.len(),
    {
        let ghost l0 = left@;
        let ghost o0 = out@;
        if let Some(p) = left.pop() {
            proof {
                reveal(Seq::filter);
                assert(left@ =~= l0.drop_last());
            }
            if !is_among(p.ip.as_str(), mine) {
                out.push(p);
                assert(out@.reverse() =~= seq![p] + o0.reverse());
                assert(not_mine(left@, own) + out@.reverse() =~= not_mine(l0, own)
                    + o0.reverse());
            }
        }
    }
    proof {
        reveal(Seq::filter);
        assert(not_mine(left@, own) + out@.reverse() =~= out@.reverse());
    }
    let r = reversed(out);
    assert(in_order(s) && rearranged(all, s) && r@ == not_mine(first_of_each(s), own));
    r
}

/// A list of receivers names no address twice and never this machine itself, and
/// it names each receiver that answered and is not this machine.
pub proof fn law_peers_are_listed_once(
    listed: Seq<Peer>,
    answered: Seq<Peer>,
    mine: Seq<Seq<char>>,
)
    requires
        lists(listed, answered, mine),
        forall|i: int, j: int|
            0 <= i < answered.len() && 0 <= j < answered.len() && (#[trigger] answered[i]).addr@
                == (#[trigger] answered[j]).addr@ ==> answered[i].ip@ == answered[j].ip@,
    ensures
        forall|i: int, j: int|
            0 <= i < j < listed.len() ==> (#[trigger] listed[i]).addr@ != (
            #[trigger] listed[j]).addr@ && text_le(listed[i].addr@, listed[j].addr@),
        forall|i: int| 0 <= i < listed.len() ==> !mine.contains((#[trigger] listed[i]).ip@),
        forall|i: int| 0 <= i < listed.len() ==> answered.contains(#[trigger] listed[i]),
        forall|k: int|
            0 <= k < answered.len() && !mine.contains((#[trigger] answered[k]).ip@)
                ==> is_listed(answered[k].addr@, listed),
{
    let s = choose|s: Seq<Peer>|
        in_order(s) && #[trigger] rearranged(answered, s) && listed == not_mine(
            first_of_each(s),
            mine,
        );
    let each = first_of_each(s);
    let keep = |p: Peer| !mine.contains(p.ip@);
    assert forall|i: int| 0 <= i < listed.len() implies !mine.contains((#[trigger] listed[i]).ip@)
        && each.contains(listed[i]) by {
        assert(listed.contains(listed[i]));
        each.lemma_filter_contains_rev(keep, listed[i]);
        each.lemma_filter_pred(keep, i);
    }
    s.to_multiset_ensures();
    answered.to_multiset_ensures();
    assert forall|i: int, j: int| 0 <= i < j < listed.len() implies (#[trigger] listed[i]).addr@ != (
    #[trigger] listed[j]).addr@ && text_le(listed[i].addr@, listed[j].addr@) by {
        let (a, b) = lemma_filter_places(each, keep, i, j);
        law_no_key_stands_twice(s, a, b);
    }
    assert forall|i: int| 0 <= i < listed.len() implies answered.contains(#[trigger] listed[i]) by {
        assert(each.contains(listed[i]));
        let a = choose|a: int| 0 <= a < each.len() && each[a] == listed[i];
        lemma_first_of_each_in(s, a);
        assert(s.contains(listed[i]));
        assert(answered.to_multiset().count(listed[i]) > 0);
    }
    assert forall|k: int|
        0 <= k < answered.len() && !mine.contains((#[trigger] answered[k]).ip@) implies is_listed(
        answered[k].addr@,
        listed,
    ) by {
        assert(answered.contains(answered[k]));
        assert(s.to_multiset().count(answered[k]) > 0);
        let m = choose|m: int| 0 <= m < s.len() && s[m] == answered[k];
        law_no_key_is_lost(s, m);
        let i = choose|i: int|
            0 <= i < each.len() && (#[trigger] each[i]).key() == s[m].key();
        lemma_first_of_each_in(s, i);
        assert(s.contains(each[i]));
        assert(answered.to_multiset().count(each[i]) > 0);
        let q = choose|q: int| 0 <= q < answered.len() && answered[q] == each[i];
        assert(answered[q].addr@ == answered[k].addr@);
        assert(keep(each[i]));
        each.lemma_filter_contains(keep, i);
        let z = choose|z: int| 0 <= z < listed.len() && listed[z] == each[i];
        assert(listed[z].addr@ == answered[k].addr@);
    }
}

/// Whether an address is in a list.
pub open spec fn is_listed(addr: Seq<char>, listed: Seq<Peer>) -> bool {
    exists|i: int| 0 <= i < listed.len() && (#[trigger] listed[i]).addr@ == addr
}

// ---------------------------------------------------------------------------
// The addresses of this machine
// ---------------------------------------------------------------------------

/// Addresses are listed as texts.
impl Keyed for String {
    open spec fn key(&self) -> (bool, Seq<char>) {
        (false, self@)
    }
}

impl Named for String {
    fn rank(&self) -> (r: bool) {
        false
    }

    fn name(&self) -> (r: &str) {
        self.as_str()
    }
}

/// The addresses of this machine in order, each once.
pub fn list_ips(ips: Vec<String>) -> (r: Vec<String>)
    ensures
        exists|s: Seq<String>|
            in_order(s) && #[trigger] rearranged(ips@, s) && r@ == first_of_each(s),
{
    without_doubles(sort(ips))
}

/// What an answer says is taken by its words: the first is the name, the second the
/// port. A name that is missing is a question mark, and a port that is missing or no
/// number is 53317.
pub proof fn law_answer_is_taken_by_words(rest: Seq<char>)
    ensures
        ({
            let w = words(rest);
            let (name, port) = peer_words(rest);
            &&& w.len() == 0 ==> name == "?"@ && port == 53317
            &&& w.len() > 0 ==> name == w[0]
            &&& w.len() == 1 ==> port == 53317
            &&& w.len() > 1 && parsed_u16(w[1]) is None ==> port == 53317
            &&& w.len() > 1 && parsed_u16(w[1]) is Some ==> parsed_u16(w[1]) == Some(port)
        }),
{
}

/// An answer begins with the words FLLE_HERE_v1, then come the name, the port and the
/// version 1; a datagram is an answer just where it begins so.
pub proof fn law_answer_begins_with_its_words(host: Seq<char>, port: u16, msg: Seq<u8>)
    ensures
        reply_words(host, port) == "FLLE_HERE_v1 "@ + host + seq![' '] + decimal(port as nat) + seq![
            ' ',
            '1',
        ],
        is_reply(msg) <==> exists|rest: Seq<u8>|
            msg == #[trigger] (encode_utf8("FLLE_HERE_v1 "@) + rest),
        is_reply(msg) ==> msg == encode_utf8("FLLE_HERE_v1 "@) + reply_rest(msg),
{
    let p = encode_utf8("FLLE_HERE_v1 "@);
    assert(decimal(1) =~= seq!['1']);
    assert(reply_words(host, port) =~= "FLLE_HERE_v1 "@ + host + seq![' '] + decimal(port as nat)
        + seq![' ', '1']);
    if is_reply(msg) {
        assert(msg =~= p + reply_rest(msg));
    }
    if exists|rest: Seq<u8>| msg == #[trigger] (p + rest) {
        let rest = choose|rest: Seq<u8>| msg == #[trigger] (p + rest);
        assert(p.is_prefix_of(p + rest));
    }
}

/// An address is the IP, in brackets where it is of the long sort, a colon and the
/// port.
pub proof fn law_address_ends_with_the_port(ip: Seq<char>, port: u16)
    ensures
        addr_words(ip, false, port) == ip + seq![':'] + decimal(port as nat),
        addr_words(ip, true, port) == seq!['['] + ip + seq![']', ':'] + decimal(port as nat),
{
    assert(addr_words(ip, true, port) =~= seq!['['] + ip + seq![']', ':'] + decimal(port as nat));
}

/// Whether an IP is in a list.
pub open spec fn is_given(ip: Seq<char>, listed: Seq<String>) -> bool {
    exists|i: int| 0 <= i < listed.len() && (#[trigger] listed[i])@ == ip
}

/// The IPs of this machine are listed in order, each once, and all of them.
pub proof fn law_ips_are_listed_once(listed: Seq<String>, ips: Seq<String>)
    requires
        exists|s: Seq<String>|
            in_order(s) && #[trigger] rearranged(ips, s) && listed == first_of_each(s),
    ensures
        forall|i: int, j: int|
            0 <= i < j < listed.len() ==> (#[trigger] listed[i])@ != (#[trigger] listed[j])@
                && text_le(listed[i]@, listed[j]@),
        forall|i: int| 0 <= i < listed.len() ==> ips.contains(#[trigger] listed[i]),
        forall|k: int| 0 <= k < ips.len() ==> is_given((#[trigger] ips[k])@, listed),
{
    let s = choose|s: Seq<String>|
        in_order(s) && #[trigger] rearranged(ips, s) && listed == first_of_each(s);
    s.to_multiset_ensures();
    ips.to_multiset_ensures();
    assert forall|i: int, j: int| 0 <= i < j < listed.len() implies (#[trigger] listed[i])@ != (
    #[trigger] listed[j])@ && text_le(listed[i]@, listed[j]@) by {
        law_no_key_stands_twice(s, i, j);
    }
    assert forall|i: int| 0 <= i < listed.len() implies ips.contains(#[trigger] listed[i]) by {
        lemma_first_of_each_in(s, i);
        assert(s.contains(listed[i]));
        assert(ips.to_multiset().count(listed[i]) > 0);
    }
    assert forall|k: int| 0 <= k < ips.len() implies is_given((#[trigger] ips[k])@, listed) by {
        assert(ips.contains(ips[k]));
        assert(s.to_multiset().count(ips[k]) > 0);
        let m = choose|m: int| 0 <= m < s.len() && s[m] == ips[k];
        law_no_key_is_lost(s, m);
        let i = choose|i: int| 0 <= i < listed.len() && (#[trigger] listed[i]).key() == s[m].key();
        assert(listed[i]@ == ips[k]@);
    }
}

} // verus!
