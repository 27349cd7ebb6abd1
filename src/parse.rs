//! Turning one client line into a routing request.

use vstd::prelude::*;
use crate::text::{chars_of, split_on, trim, trimmed_bounds};

verus! {

/// What one line asks for: a message body and the names it goes to, in the
/// order written, duplicates kept.
pub struct RoutingRequest {
    pub destinations: Vec<String>,
    pub body: String,
}

/// The mathematical content of a `RoutingRequest`.
pub struct RequestView {
    pub destinations: Seq<Seq<char>>,
    pub body: Seq<char>,
}

impl View for RoutingRequest {
    type V = RequestView;

    open spec fn view(&self) -> RequestView {
        RequestView {
            destinations: self.destinations@.map_values(|d: String| d@),
            body: self.body@,
        }
    }
}

/// `k` is the position of the first `:` of `s`.
pub open spec fn is_first_colon(s: Seq<char>, k: int) -> bool {
    &&& 0 <= k < s.len()
    &&& s[k] == ':'
    &&& forall|j: int| 0 <= j < k ==> s[j] != ':'
}

/// The destination list written before the separator: the comma-separated
/// names, each trimmed; a blank prefix names nobody.
pub open spec fn destinations_of(prefix: Seq<char>) -> Seq<Seq<char>> {
    if trim(prefix).len() == 0 {
        seq![]
    } else {
        split_on(prefix, ',').map_values(|p: Seq<char>| trim(p))
    }
}

/// The request a line makes when its first `:` stands at `k`.
pub open spec fn request_at(s: Seq<char>, k: int) -> RequestView {
    RequestView { destinations: destinations_of(s.take(k)), body: trim(s.skip(k + 1)) }
}

/// The request a line makes: none when it holds no `:`.
pub open spec fn parse(s: Seq<char>) -> Option<RequestView> {
    if exists|k: int| is_first_colon(s, k) {
        Some(request_at(s, choose|k: int| is_first_colon(s, k)))
    } else {
        None
    }
}

/// Parses a line of the form `name,name,...:body`.
pub fn parse_line(line: &str) -> (r: Option<RoutingRequest>)
    ensures
        match r {
            Some(q) => parse(line@) == Some(q@),
            None => parse(line@) is None,
        },
{
    let v = chars_of(line);
    let n = v.len();
    let mut k: usize = 0;
    while k < n && v[k] != ':'
        invariant
            k <= n == v@.len(),
            v@ == line@,
            forall|j: int| 0 <= j < k ==> v@[j] != ':',
        decreases n - k,
    {
        k = k + 1;
    }
    if k == n {
        assert(forall|j: int| !is_first_colon(line@, j));
        return None;
    }
    assert(is_first_colon(line@, k as int));
    let (ba, bb) = trimmed_bounds(&v, k + 1, n);
    let body = String::from_str(line.substring_char(ba, bb));
    assert(v@.subrange(k + 1, n as int) =~= line@.skip(k + 1));
    let (pa, pb) = trimmed_bounds(&v, 0, k);
    assert(v@.subrange(0, k as int) =~= line@.take(k as int));
    let mut destinations: Vec<String> = Vec::new();
    if pa < pb {
        let ghost prefix = line@.take(k as int);
        let ghost mut done: Seq<Seq<char>> = seq![];
        let mut start: usize = 0;
        let mut i: usize = 0;
        assert(prefix.take(0) =~= seq![]);
        assert(v@.subrange(0, 0) =~= seq![]);
        assert(done.push(v@.subrange(0, 0)) =~= seq![seq![]]);
        while i < k
            invariant
                start <= i <= k < n == v@.len(),
                v@ == line@,
                prefix == line@.take(k as int),
                split_on(prefix.take(i as int), ',') == done.push(v@.subrange(start as int, i as int)),
                destinations@.len() == done.len(),
                forall|j: int| 0 <= j < done.len() ==> #[trigger] destinations@[j]@ == trim(done[j]),
            decreases k - i,
        {
            assert(prefix.take(i + 1).drop_last() =~= prefix.take(i as int));
            if v[i] == ',' {
                let (a, b) = trimmed_bounds(&v, start, i);
                let piece = String::from_str(line.substring_char(a, b));
                assert(piece@ == trim(v@.subrange(start as int, i as int)));
                proof {
                    done = done.push(v@.subrange(start as int, i as int));
                }
                destinations.push(piece);
                start = i + 1;
                assert(v@.subrange(start as int, i + 1) =~= seq![]);
            } else {
                assert(v@.subrange(start as int, i + 1) =~= v@.subrange(start as int, i as int).push(v@[i as int]));
            }
            i = i + 1;
        }
        let (a, b) = trimmed_bounds(&v, start, k);
        let piece = String::from_str(line.substring_char(a, b));
        destinations.push(piece);
        proof {
            assert(prefix.take(k as int) =~= prefix);
            done = done.push(v@.subrange(start as int, k as int));
            assert(destinations@.map_values(|d: String| d@) =~= done.map_values(|p: Seq<char>| trim(p)));
        }
    }
    let r = RoutingRequest { destinations, body };
    assert(r@.destinations =~= destinations_of(line@.take(k as int)));
    Some(r)
}

} // verus!
