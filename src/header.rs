use vstd::prelude::*;

verus! {

/// One header field: views into the parsed buffer, never copies.
#[derive(Debug)]
pub struct MailHeader<'a> {
    /// The bytes before the field's colon, not trimmed on the right.
    pub key: &'a [u8],
    /// The bytes from the first non-whitespace byte after the colon to the
    /// field's terminator; folded lines stay in it verbatim.
    pub value: &'a [u8],
}

impl<'a> View for MailHeader<'a> {
    type V = (Seq<u8>, Seq<u8>);

    open spec fn view(&self) -> (Seq<u8>, Seq<u8>) {
        (self.key@, self.value@)
    }
}

impl<'a> Default for MailHeader<'a> {
    fn default() -> (r: Self)
        ensures
            r.key@.len() == 0,
            r.value@.len() == 0,
    {
        MailHeader { key: &[], value: &[] }
    }
}

/// ASCII lower case of one byte; other bytes stay as they are.
pub open spec fn lower(b: u8) -> u8 {
    if 65 <= b <= 90 {
        (b + 32) as u8
    } else {
        b
    }
}

/// Byte-wise ASCII case-insensitive equality.
pub open spec fn ascii_eq(a: Seq<u8>, b: Seq<u8>) -> bool {
    a.len() == b.len() && forall|i: int| 0 <= i < a.len() ==> lower(a[i]) == lower(b[i])
}

/// The fields of `hs` whose key equals `key` up to ASCII case, in order.
pub open spec fn headers_for(hs: Seq<(Seq<u8>, Seq<u8>)>, key: Seq<u8>) -> Seq<(Seq<u8>, Seq<u8>)>
    decreases hs.len(),
{
    if hs.len() == 0 {
        seq![]
    } else if ascii_eq(hs[0].0, key) {
        seq![hs[0]] + headers_for(hs.drop_first(), key)
    } else {
        headers_for(hs.drop_first(), key)
    }
}

/// The values of the fields of `hs` whose key equals `key` up to ASCII case.
pub open spec fn values_for(hs: Seq<(Seq<u8>, Seq<u8>)>, key: Seq<u8>) -> Seq<Seq<u8>> {
    headers_for(hs, key).map_values(|f: (Seq<u8>, Seq<u8>)| f.1)
}

/// The earliest field of `hs` whose key equals `key` up to ASCII case.
pub open spec fn first_header_for(hs: Seq<(Seq<u8>, Seq<u8>)>, key: Seq<u8>) -> Option<(Seq<u8>, Seq<u8>)> {
    let m = headers_for(hs, key);
    if m.len() > 0 {
        Some(m[0])
    } else {
        None
    }
}

/// The value of the earliest field of `hs` whose key equals `key` up to ASCII case.
pub open spec fn first_value_for(hs: Seq<(Seq<u8>, Seq<u8>)>, key: Seq<u8>) -> Option<Seq<u8>> {
    match first_header_for(hs, key) {
        Some(f) => Some(f.1),
        None => None,
    }
}

/// Compares two byte strings, ignoring ASCII case.
pub fn eq_ignore_ascii_case(a: &[u8], b: &[u8]) -> (r: bool)
    ensures
        r == ascii_eq(a@, b@),
{
    if a.len() != b.len() {
        return false;
    }
    let mut i: usize = 0;
    while i < a.len()
        invariant
            a@.len() == b@.len(),
            i <= a@.len(),
            forall|j: int| 0 <= j < i ==> lower(a@[j]) == lower(b@[j]),
        decreases a@.len() - i,
    {
        let x = if 65 <= a[i] && a[i] <= 90 { a[i] + 32 } else { a[i] };
        let y = if 65 <= b[i] && b[i] <= 90 { b[i] + 32 } else { b[i] };
        if x != y {
            return false;
        }
        i = i + 1;
    }
    true
}

proof fn lemma_headers_for_step(hs: Seq<(Seq<u8>, Seq<u8>)>, key: Seq<u8>, i: int)
    requires
        0 <= i < hs.len(),
    ensures
        headers_for(hs.subrange(i, hs.len() as int), key) == if ascii_eq(hs[i].0, key) {
            seq![hs[i]] + headers_for(hs.subrange(i + 1, hs.len() as int), key)
        } else {
            headers_for(hs.subrange(i + 1, hs.len() as int), key)
        },
{
    assert(hs.subrange(i, hs.len() as int).drop_first() =~= hs.subrange(i + 1, hs.len() as int));
}

/// Lookup ignores ASCII case in the queried key: two keys that are equal up
/// to ASCII case find the same fields, the same values, and the same first
/// field and value.
pub proof fn lemma_lookup_ignores_case(hs: Seq<(Seq<u8>, Seq<u8>)>, k1: Seq<u8>, k2: Seq<u8>)
    requires
        ascii_eq(k1, k2),
    ensures
        headers_for(hs, k1) == headers_for(hs, k2),
        values_for(hs, k1) == values_for(hs, k2),
        first_header_for(hs, k1) == first_header_for(hs, k2),
        first_value_for(hs, k1) == first_value_for(hs, k2),
    decreases hs.len(),
{
    if hs.len() > 0 {
        lemma_lookup_ignores_case(hs.drop_first(), k1, k2);
        assert(ascii_eq(hs[0].0, k1) == ascii_eq(hs[0].0, k2));
    }
}

/// Lookup keeps document order, duplicates included: the matches in a list
/// made of two parts are the matches in the first part followed by those in
/// the second.
pub proof fn lemma_lookup_keeps_order(
    front: Seq<(Seq<u8>, Seq<u8>)>,
    back: Seq<(Seq<u8>, Seq<u8>)>,
    key: Seq<u8>,
)
    ensures
        headers_for(front + back, key) == headers_for(front, key) + headers_for(back, key),
        values_for(front + back, key) == values_for(front, key) + values_for(back, key),
    decreases front.len(),
{
    if front.len() == 0 {
        assert(front + back =~= back);
        assert(headers_for(front, key) + headers_for(back, key) =~= headers_for(back, key));
    } else {
        lemma_lookup_keeps_order(front.drop_first(), back, key);
        assert((front + back).drop_first() =~= front.drop_first() + back);
        assert((front + back)[0] == front[0]);
        if ascii_eq(front[0].0, key) {
            assert(seq![front[0]] + (headers_for(front.drop_first(), key) + headers_for(back, key))
                =~= (seq![front[0]] + headers_for(front.drop_first(), key)) + headers_for(back, key));
        }
    }
    assert(values_for(front + back, key) =~= values_for(front, key) + values_for(back, key));
}

/// Lookup results are fixed by the list and the key: any two results that
/// the lookup contracts admit for the same list and key are equal, so
/// repeating a lookup never yields something else.
pub proof fn lemma_lookup_repeatable(
    hs: Seq<(Seq<u8>, Seq<u8>)>,
    key: Seq<u8>,
    a1: Seq<(Seq<u8>, Seq<u8>)>,
    a2: Seq<(Seq<u8>, Seq<u8>)>,
    v1: Seq<Seq<u8>>,
    v2: Seq<Seq<u8>>,
    h1: Option<(Seq<u8>, Seq<u8>)>,
    h2: Option<(Seq<u8>, Seq<u8>)>,
    f1: Option<Seq<u8>>,
    f2: Option<Seq<u8>>,
)
    requires
        a1 == headers_for(hs, key),
        a2 == headers_for(hs, key),
        v1 == values_for(hs, key),
        v2 == values_for(hs, key),
        h1 == first_header_for(hs, key),
        h2 == first_header_for(hs, key),
        f1 == first_value_for(hs, key),
        f2 == first_value_for(hs, key),
    ensures
        a1 == a2,
        v1 == v2,
        h1 == h2,
        f1 == f2,
        h1 == (if a1.len() > 0 { Some(a1[0]) } else { None::<(Seq<u8>, Seq<u8>)> }),
        f1 == (if v1.len() > 0 { Some(v1[0]) } else { None::<Seq<u8>> }),
{
}

/// Case-insensitive lookup over an ordered list of header fields.
pub trait MailHeaderMap {
    /// The (key, value) pairs of the list, in order.
    spec fn field_views(&self) -> Seq<(Seq<u8>, Seq<u8>)>;

    /// All fields whose key matches `key`, in document order.
    fn get_all_headers(&self, key: &[u8]) -> (r: Vec<&MailHeader>)
        ensures
            r@.map_values(|h: &MailHeader| h@) == headers_for(self.field_views(), key@),
    ;

    /// The values of all fields whose key matches `key`, in document order.
    fn get_all_values(&self, key: &[u8]) -> (r: Vec<&[u8]>)
        ensures
            r@.map_values(|v: &[u8]| v@) == values_for(self.field_views(), key@),
    ;

    /// The earliest field whose key matches `key`.
    fn get_first_header(&self, key: &[u8]) -> (r: Option<&MailHeader>)
        ensures
            match r {
                Some(h) => first_header_for(self.field_views(), key@) == Some(h@),
                None => first_header_for(self.field_views(), key@) is None,
            },
    ;

    /// The value of the earliest field whose key matches `key`.
    fn get_first_value(&self, key: &[u8]) -> (r: Option<&[u8]>)
        ensures
            match r {
                Some(v) => first_value_for(self.field_views(), key@) == Some(v@),
                None => first_value_for(self.field_views(), key@) is None,
            },
    ;
}

impl<'a> MailHeaderMap for [MailHeader<'a>] {
    open spec fn field_views(&self) -> Seq<(Seq<u8>, Seq<u8>)> {
        self@.map_values(|h: MailHeader<'a>| h@)
    }

    fn get_all_headers(&self, key: &[u8]) -> (r: Vec<&MailHeader>) {
        let ghost hs = self.field_views();
        let mut headers: Vec<&MailHeader> = Vec::new();
        let mut i: usize = 0;
        proof {
            assert(hs.subrange(0, hs.len() as int) =~= hs);
            assert(headers@.map_values(|h: &MailHeader| h@) + headers_for(hs, key@) =~= headers_for(hs, key@));
        }
        while i < self.len()
            invariant
                i <= self@.len(),
                hs == self.field_views(),
                headers_for(hs, key@) == headers@.map_values(|h: &MailHeader| h@) + headers_for(
                    hs.subrange(i as int, hs.len() as int),
                    key@,
                ),
            decreases self@.len() - i,
        {
            proof {
                lemma_headers_for_step(hs, key@, i as int);
            }
            let h = &self[i];
            if eq_ignore_ascii_case(h.key, key) {
                let ghost before = headers@;
                headers.push(h);
                proof {
                    assert(headers@.map_values(|h: &MailHeader| h@) =~= before.map_values(|h: &MailHeader| h@)
                        + seq![hs[i as int]]);
                }
            }
            i = i + 1;
        }
        proof {
            assert(hs.subrange(i as int, hs.len() as int) =~= Seq::<(Seq<u8>, Seq<u8>)>::empty());
        }
        headers
    }

    fn get_all_values(&self, key: &[u8]) -> (r: Vec<&[u8]>) {
        let ghost hs = self.field_views();
        let mut values: Vec<&[u8]> = Vec::new();
        let mut i: usize = 0;
        proof {
            assert(hs.subrange(0, hs.len() as int) =~= hs);
            let all = headers_for(hs, key@).map_values(|f: (Seq<u8>, Seq<u8>)| f.1);
            assert(values@.map_values(|v: &[u8]| v@) + all =~= all);
        }
        while i < self.len()
            invariant
                i <= self@.len(),
                hs == self.field_views(),
                headers_for(hs, key@).map_values(|f: (Seq<u8>, Seq<u8>)| f.1) == values@.map_values(|v: &[u8]| v@)
                    + headers_for(hs.subrange(i as int, hs.len() as int), key@).map_values(
                    |f: (Seq<u8>, Seq<u8>)| f.1,
                ),
            decreases self@.len() - i,
        {
            proof {
                lemma_headers_for_step(hs, key@, i as int);
            }
            let h = &self[i];
            if eq_ignore_ascii_case(h.key, key) {
                let ghost before = values@;
                values.push(h.value);
                proof {
                    let tail = headers_for(hs.subrange(i + 1, hs.len() as int), key@);
                    assert((seq![hs[i as int]] + tail).map_values(|f: (Seq<u8>, Seq<u8>)| f.1) =~= seq![hs[i as int].1]
                        + tail.map_values(|f: (Seq<u8>, Seq<u8>)| f.1));
                    assert(values@.map_values(|v: &[u8]| v@) =~= before.map_values(|v: &[u8]| v@)
                        + seq![hs[i as int].1]);
                }
            }
            i = i + 1;
        }
        proof {
            assert(hs.subrange(i as int, hs.len() as int) =~= Seq::<(Seq<u8>, Seq<u8>)>::empty());
        }
        values
    }

    fn get_first_header(&self, key: &[u8]) -> (r: Option<&MailHeader>) {
        let ghost hs = self.field_views();
        let mut i: usize = 0;
        proof {
            assert(hs.subrange(0, hs.len() as int) =~= hs);
        }
        while i < self.len()
            invariant
                i <= self@.len(),
                hs == self.field_views(),
                headers_for(hs, key@) == headers_for(hs.subrange(i as int, hs.len() as int), key@),
            decreases self@.len() - i,
        {
            proof {
                lemma_headers_for_step(hs, key@, i as int);
            }
            if eq_ignore_ascii_case(self[i].key, key) {
                return Some(&self[i]);
            }
            i = i + 1;
        }
        proof {
            assert(hs.subrange(i as int, hs.len() as int) =~= Seq::<(Seq<u8>, Seq<u8>)>::empty());
        }
        None
    }

    fn get_first_value(&self, key: &[u8]) -> (r: Option<&[u8]>) {
        let ghost hs = self.field_views();
        let mut i: usize = 0;
        proof {
            assert(hs.subrange(0, hs.len() as int) =~= hs);
        }
        while i < self.len()
            invariant
                i <= self@.len(),
                hs == self.field_views(),
                headers_for(hs, key@) == headers_for(hs.subrange(i as int, hs.len() as int), key@),
            decreases self@.len() - i,
        {
            proof {
                lemma_headers_for_step(hs, key@, i as int);
            }
            if eq_ignore_ascii_case(self[i].key, key) {
                return Some(self[i].value);
            }
            i = i + 1;
        }
        proof {
            assert(hs.subrange(i as int, hs.len() as int) =~= Seq::<(Seq<u8>, Seq<u8>)>::empty());
        }
        None
    }
}

} // verus!
