use vstd::prelude::*;
use vstd::string::*;

verus! {

/// A namespace-qualified name: an optional prefix (empty when absent) and a local name.
#[derive(PartialEq, Eq, Debug)]
pub struct QName {
    pub prefix: String,
    pub local: String,
}

/// `p` and `l` are what splitting the declared tag `s` on its first colon gives,
/// where `s` holds at most one colon.
pub open spec fn is_split_of(s: Seq<char>, p: Seq<char>, l: Seq<char>) -> bool {
    if s.contains(':') {
        s == p + seq![':'] + l && !p.contains(':') && !l.contains(':')
    } else {
        p.len() == 0 && l == s
    }
}

/// `s` holds two or more colons.
pub open spec fn has_two_colons(s: Seq<char>) -> bool {
    exists|i: int, j: int| 0 <= i < j < s.len() && s[i] == ':' && s[j] == ':'
}

impl QName {
    /// Exact equality of both components.
    pub open spec fn same(&self, o: QName) -> bool {
        self.prefix@ == o.prefix@ && self.local@ == o.local@
    }

    pub fn new(prefix: &str, local: &str) -> (r: QName)
        ensures
            r.prefix@ == prefix@,
            r.local@ == local@,
    {
        QName { prefix: prefix.to_owned(), local: local.to_owned() }
    }

    /// Tests this name against another one, component by component.
    pub fn same_as(&self, o: &QName) -> (r: bool)
        ensures
            r == self.same(*o),
    {
        self.prefix == o.prefix && self.local == o.local
    }

    /// Splits a declared tag `"prefix:local"` or `"local"` on its first colon.
    /// A tag with more than one colon is a schema error and gives `None`.
    pub fn parse(s: &str) -> (r: Option<QName>)
        ensures
            r is None <==> has_two_colons(s@),
            r matches Some(q) ==> is_split_of(s@, q.prefix@, q.local@),
    {
        let n = s.unicode_len();
        let mut i: usize = 0;
        while i < n && s.get_char(i) != ':'
            invariant
                n == s@.len(),
                i <= n,
                forall|k: int| 0 <= k < i ==> s@[k] != ':',
            decreases n - i,
        {
            i = i + 1;
        }
        if i == n {
            assert(!s@.contains(':'));
            assert(!has_two_colons(s@));
            return Some(QName { prefix: String::new(), local: s.to_owned() });
        }
        let mut j: usize = i + 1;
        while j < n
            invariant
                n == s@.len(),
                i < j <= n,
                s@[i as int] == ':',
                forall|k: int| 0 <= k < i ==> s@[k] != ':',
                forall|k: int| i < k < j ==> s@[k] != ':',
            decreases n - j,
        {
            if s.get_char(j) == ':' {
                assert(has_two_colons(s@));
                return None;
            }
            j = j + 1;
        }
        let p = s.substring_char(0, i);
        let l = s.substring_char(i + 1, n);
        assert(s@ =~= p@ + seq![':'] + l@);
        assert(!has_two_colons(s@)) by {
            if has_two_colons(s@) {
                let (a, b) = choose|a: int, b: int|
                    0 <= a < b < s@.len() && s@[a] == ':' && s@[b] == ':';
                assert(a >= i);
                assert(b > i);
            }
        }
        assert(!l@.contains(':')) by {
            if l@.contains(':') {
                let k = choose|k: int| 0 <= k < l@.len() && l@[k] == ':';
                assert(s@[i + 1 + k] == ':');
            }
        }
        Some(QName { prefix: p.to_owned(), local: l.to_owned() })
    }
}

} // verus!
