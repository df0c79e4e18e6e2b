//! The node's text messages: a one-word prefix names the kind of payload,
//! and a routing instruction names the receiver a payload is wrapped for.
use vstd::prelude::*;

verus! {

/// Whether `text` begins with `prefix`.
pub open spec fn has_prefix(text: Seq<char>, prefix: Seq<char>) -> bool {
    prefix.len() <= text.len() && text.take(prefix.len() as int) == prefix
}

/// The prefix of a routing instruction.
pub open spec fn route_prefix() -> Seq<char> {
    seq!['G', 'A', 'R', 'L', 'I', 'C', '_', 'R', 'O', 'U', 'T', 'E', ':']
}

/// The routing instruction that wraps `data` for `receiver`.
pub open spec fn route_text(receiver: Seq<char>, data: Seq<char>) -> Seq<char> {
    route_prefix() + receiver + seq![':'] + data
}

/// Whether `k` is the position of the first colon in `s`.
pub open spec fn is_first_colon(s: Seq<char>, k: int) -> bool {
    &&& 0 <= k < s.len()
    &&& s[k] == ':'
    &&& forall|j: int| 0 <= j < k ==> #[trigger] s[j] != ':'
}

/// How a message queued for sending reads: `None` when it is no routing
/// instruction; `Some(None)` when it is one without a second colon; else the
/// receiver (up to the next colon) and the data (everything after it).
pub open spec fn parsed_route(text: Seq<char>) -> Option<Option<(Seq<char>, Seq<char>)>> {
    if has_prefix(text, route_prefix()) {
        let rest = text.skip(route_prefix().len() as int);
        if exists|k: int| is_first_colon(rest, k) {
            let k = choose|k: int| is_first_colon(rest, k);
            Some(Some((rest.take(k), rest.skip(k + 1))))
        } else {
            Some(None)
        }
    } else {
        None
    }
}

/// The part of `text` after `prefix`, when `text` begins with it.
pub fn strip_prefix(text: &str, prefix: &str) -> (res: Option<String>)
    ensures
        res is Some <==> has_prefix(text@, prefix@),
        res matches Some(rest) ==> rest@ == text@.skip(prefix@.len() as int),
{
    let plen = prefix.unicode_len();
    let tlen = text.unicode_len();
    if plen > tlen {
        return None;
    }
    let mut i: usize = 0;
    while i < plen
        invariant
            i <= plen,
            plen == prefix@.len(),
            tlen == text@.len(),
            plen <= tlen,
            forall|j: int| 0 <= j < i ==> #[trigger] text@[j] == prefix@[j],
        decreases plen - i,
    {
        if text.get_char(i) != prefix.get_char(i) {
            assert(text@.take(plen as int)[i as int] != prefix@[i as int]);
            return None;
        }
        i = i + 1;
    }
    assert(text@.take(plen as int) =~= prefix@);
    let rest = text.substring_char(plen, tlen);
    assert(rest@ =~= text@.skip(plen as int));
    Some(String::from_str(rest))
}

/// The routing instruction that wraps `data` for `receiver`.
pub fn route_instruction(receiver: &str, data: &str) -> (res: String)
    ensures
        res@ == route_text(receiver@, data@),
{
    let prefix = "GARLIC_ROUTE:";
    let colon = ":";
    proof {
        reveal_strlit("GARLIC_ROUTE:");
        reveal_strlit(":");
        assert(prefix@ =~= route_prefix());
        assert(colon@ =~= seq![':']);
    }
    let mut s = String::from_str(prefix);
    s.append(receiver);
    s.append(colon);
    s.append(data);
    s
}

/// Reads a message queued for sending as a routing instruction.
pub fn parse_route_instruction(text: &str) -> (res: Option<Option<(String, String)>>)
    ensures
        match parsed_route(text@) {
            None => res is None,
            Some(None) => res == Some(None::<(String, String)>),
            Some(Some((r, d))) => res matches Some(Some((x, y))) && x@ == r && y@ == d,
        },
{
    let prefix = "GARLIC_ROUTE:";
    proof {
        reveal_strlit("GARLIC_ROUTE:");
        assert(prefix@ =~= route_prefix());
    }
    let rest = match strip_prefix(text, prefix) {
        None => return None,
        Some(r) => r,
    };
    let rlen = rest.as_str().unicode_len();
    let mut k: usize = 0;
    while k < rlen
        invariant
            k <= rlen,
            rlen == rest@.len(),
            has_prefix(text@, route_prefix()),
            rest@ == text@.skip(route_prefix().len() as int),
            forall|j: int| 0 <= j < k ==> #[trigger] rest@[j] != ':',
        decreases rlen - k,
    {
        if rest.as_str().get_char(k) == ':' {
            let receiver = rest.as_str().substring_char(0, k);
            let data = rest.as_str().substring_char(k + 1, rlen);
            proof {
                assert(is_first_colon(rest@, k as int));
                assert forall|m: int| is_first_colon(rest@, m) implies m == k by {
                    if m < k {
                        assert(rest@[m] != ':');
                    }
                    if m > k {
                        assert(rest@[k as int] != ':');
                    }
                }
                assert(receiver@ =~= rest@.take(k as int));
                assert(data@ =~= rest@.skip(k + 1));
            }
            return Some(Some((String::from_str(receiver), String::from_str(data))));
        }
        k = k + 1;
    }
    Some(None)
}

/// A receiver without colons is read back, with its data, from the routing
/// instruction that wraps the data for it.
pub proof fn lemma_route_roundtrip(receiver: Seq<char>, data: Seq<char>)
    requires
        !receiver.contains(':'),
    ensures
        parsed_route(route_text(receiver, data)) == Some(Some((receiver, data))),
{
    let text = route_text(receiver, data);
    assert(text.take(route_prefix().len() as int) =~= route_prefix());
    let rest = text.skip(route_prefix().len() as int);
    assert(rest =~= receiver + seq![':'] + data);
    let k = receiver.len() as int;
    assert forall|j: int| 0 <= j < k implies #[trigger] rest[j] != ':' by {
        assert(rest[j] == receiver[j]);
    }
    assert(is_first_colon(rest, k));
    let c = choose|c: int| is_first_colon(rest, c);
    if c < k {
        assert(rest[c] == receiver[c]);
    }
    if c > k {
        assert(rest[k] != ':');
    }
    assert(rest.take(k) =~= receiver);
    assert(rest.skip(k + 1) =~= data);
}

} // verus!
