//! The street-map importer's compute side: building an address from a node's
//! tags, and the buffered import table whose primary key silently routes
//! duplicate rows to an error table.

use vstd::prelude::*;

use crate::address::{Address, AddressView};

verus! {

/// Applies one tag to an address under construction; unknown tags change
/// nothing, and a repeated tag overwrites.
pub open spec fn spec_apply_tag(a: AddressView, tag: Seq<char>, value: Seq<char>) -> AddressView {
    if tag == "addr:housenumber"@ {
        AddressView { number: Some(value), ..a }
    } else if tag == "addr:street"@ {
        AddressView { street: Some(value), ..a }
    } else if tag == "addr:unit"@ {
        AddressView { unit: Some(value), ..a }
    } else if tag == "addr:city"@ {
        AddressView { city: Some(value), ..a }
    } else if tag == "addr:district"@ {
        AddressView { district: Some(value), ..a }
    } else if tag == "addr:region"@ {
        AddressView { region: Some(value), ..a }
    } else if tag == "addr:postcode"@ {
        AddressView { postcode: Some(value), ..a }
    } else {
        a
    }
}

/// The tags of a node, at the specification level.
pub open spec fn spec_tags_view(tags: Seq<(String, String)>) -> Seq<(Seq<char>, Seq<char>)> {
    tags.map_values(|p: (String, String)| (p.0@, p.1@))
}

/// The address a node's coordinates and tags build, applied left to right.
pub open spec fn spec_address_from_tags(
    lat: Seq<char>,
    lon: Seq<char>,
    tags: Seq<(Seq<char>, Seq<char>)>,
) -> AddressView
    decreases tags.len(),
{
    if tags.len() == 0 {
        AddressView {
            lat,
            lon,
            number: None,
            street: None,
            unit: None,
            city: None,
            district: None,
            region: None,
            postcode: None,
        }
    } else {
        spec_apply_tag(
            spec_address_from_tags(lat, lon, tags.drop_last()),
            tags.last().0,
            tags.last().1,
        )
    }
}

/// Decides whether two strings hold the same characters.
fn str_eq(a: &String, b: &str) -> (r: bool)
    ensures
        r == (a@ == b@),
{
    *a == b.to_owned()
}

/// Builds an address from a node's coordinates and tags.
pub fn address_from_tags(lat: String, lon: String, tags: &Vec<(String, String)>) -> (a: Address)
    ensures
        a@ == spec_address_from_tags(lat@, lon@, spec_tags_view(tags@)),
{
    let ghost latv = lat@;
    let ghost lonv = lon@;
    let ghost tv = spec_tags_view(tags@);
    let mut a = Address {
        lat,
        lon,
        number: None,
        street: None,
        unit: None,
        city: None,
        district: None,
        region: None,
        postcode: None,
    };
    let n = tags.len();
    let mut i: usize = 0;
    proof {
        assert(tv.take(0) =~= Seq::<(Seq<char>, Seq<char>)>::empty());
        assert(a@ == spec_address_from_tags(latv, lonv, tv.take(0)));
    }
    while i < n
        invariant
            i <= n,
            n == tags@.len(),
            tv == spec_tags_view(tags@),
            a@ == spec_address_from_tags(latv, lonv, tv.take(i as int)),
        decreases n - i,
    {
        proof {
            assert(tv.take(i as int + 1).drop_last() =~= tv.take(i as int));
            assert(tv.take(i as int + 1).last() == tv[i as int]);
            assert(tv[i as int] == (tags@[i as int].0@, tags@[i as int].1@));
        }
        let tag = &tags[i].0;
        let value = &tags[i].1;
        if str_eq(tag, "addr:housenumber") {
            a.number = Some(value.clone());
        } else if str_eq(tag, "addr:street") {
            a.street = Some(value.clone());
        } else if str_eq(tag, "addr:unit") {
            a.unit = Some(value.clone());
        } else if str_eq(tag, "addr:city") {
            a.city = Some(value.clone());
        } else if str_eq(tag, "addr:district") {
            a.district = Some(value.clone());
        } else if str_eq(tag, "addr:region") {
            a.region = Some(value.clone());
        } else if str_eq(tag, "addr:postcode") {
            a.postcode = Some(value.clone());
        }
        i += 1;
    }
    proof {
        assert(tv.take(n as int) =~= tv);
    }
    a
}

/// Why the import table bounced a row.
#[derive(Clone, Copy, PartialEq, Eq, Structural, Debug)]
pub enum ImportError {
    /// The row has no street, which the street column demands.
    MissingStreet,
    /// A committed row already carries the row's key.
    KeyConflict,
}

/// Whether two rows collide on the import table's unique key — coordinates,
/// number, street and city — under SQL semantics: an absent component never
/// equals anything, itself included.
pub open spec fn spec_key_conflict(a: AddressView, b: AddressView) -> bool {
    &&& a.lat == b.lat
    &&& a.lon == b.lon
    &&& a.number is Some && a.number == b.number
    &&& a.street is Some && a.street == b.street
    &&& a.city is Some && a.city == b.city
}

/// The views of a list of addresses.
pub open spec fn addr_views_of(rows: Seq<Address>) -> Seq<AddressView> {
    rows.map_values(|a: Address| a@)
}

/// The views of a list of bounced rows.
pub open spec fn err_views_of(errs: Seq<(Address, ImportError)>) -> Seq<
    (AddressView, ImportError),
> {
    errs.map_values(|p: (Address, ImportError)| (p.0@, p.1))
}

/// How many bounced rows carry this cause.
pub open spec fn spec_count_kind(errs: Seq<(AddressView, ImportError)>, k: ImportError) -> nat
    decreases errs.len(),
{
    if errs.len() == 0 {
        0
    } else {
        spec_count_kind(errs.drop_last(), k) + (if errs.last().1 == k {
            1nat
        } else {
            0nat
        })
    }
}

/// Whether some committed row collides with this one.
pub open spec fn key_in(rows: Seq<AddressView>, a: AddressView) -> bool {
    exists|i: int| 0 <= i < rows.len() && spec_key_conflict(#[trigger] rows[i], a)
}

/// What the import table does with one row: a street-less row violates the
/// street column, a row colliding on the key violates the key; any other
/// row commits.
pub open spec fn spec_row_bounce(rows: Seq<AddressView>, a: AddressView) -> Option<ImportError> {
    if !(a.street is Some) {
        Some(ImportError::MissingStreet)
    } else if key_in(rows, a) {
        Some(ImportError::KeyConflict)
    } else {
        None
    }
}

/// The committed rows after flushing a buffer, front first: a bounced row
/// goes to the error table, any other row is inserted.
pub open spec fn spec_flush_rows(rows: Seq<AddressView>, buf: Seq<AddressView>) -> Seq<AddressView>
    decreases buf.len(),
{
    if buf.len() == 0 {
        rows
    } else {
        let r1 = if spec_row_bounce(rows, buf.first()) is Some {
            rows
        } else {
            rows.push(buf.first())
        };
        spec_flush_rows(r1, buf.drop_first())
    }
}

/// The error rows after flushing a buffer, each with why it bounced.
pub open spec fn spec_flush_errors(
    rows: Seq<AddressView>,
    errors: Seq<(AddressView, ImportError)>,
    buf: Seq<AddressView>,
) -> Seq<(AddressView, ImportError)>
    decreases buf.len(),
{
    if buf.len() == 0 {
        errors
    } else {
        let bounce = spec_row_bounce(rows, buf.first());
        let r1 = if bounce is Some {
            rows
        } else {
            rows.push(buf.first())
        };
        let e1 = match bounce {
            Some(k) => errors.push((buf.first(), k)),
            None => errors,
        };
        spec_flush_errors(r1, e1, buf.drop_first())
    }
}

/// Flushing a buffer in two batches lands where flushing it whole does.
pub proof fn lemma_flush_append(
    rows: Seq<AddressView>,
    errors: Seq<(AddressView, ImportError)>,
    b1: Seq<AddressView>,
    b2: Seq<AddressView>,
)
    ensures
        spec_flush_rows(rows, b1 + b2) == spec_flush_rows(spec_flush_rows(rows, b1), b2),
        spec_flush_errors(rows, errors, b1 + b2) == spec_flush_errors(
            spec_flush_rows(rows, b1),
            spec_flush_errors(rows, errors, b1),
            b2,
        ),
    decreases b1.len(),
{
    if b1.len() == 0 {
        assert(b1 + b2 =~= b2);
    } else {
        assert((b1 + b2).first() == b1.first());
        assert((b1 + b2).drop_first() =~= b1.drop_first() + b2);
        let bounce = spec_row_bounce(rows, b1.first());
        let r1 = if bounce is Some {
            rows
        } else {
            rows.push(b1.first())
        };
        let e1 = match bounce {
            Some(k) => errors.push((b1.first(), k)),
            None => errors,
        };
        lemma_flush_append(r1, e1, b1.drop_first(), b2);
    }
}

/// The import table: committed rows keyed by coordinates, number, street
/// and city; bounced rows with why each bounced; and the write buffer.
pub struct DB {
    pub rows: Vec<Address>,
    pub errors: Vec<(Address, ImportError)>,
    pub buffer: Vec<Address>,
    pub buffer_size: usize,
}

impl DB {
    /// Well-formedness: no two committed rows collide on the key and the
    /// buffer threshold is positive.
    pub open spec fn wf(self) -> bool {
        &&& self.buffer_size >= 1
        &&& forall|i: int, j: int|
            0 <= i < j < self.rows@.len() ==> !spec_key_conflict(
                (#[trigger] self.rows@[i])@,
                (#[trigger] self.rows@[j])@,
            )
    }

    /// Opens an empty import table.
    pub fn new(buffer_size: usize) -> (db: DB)
        requires
            buffer_size >= 1,
        ensures
            db.wf(),
            db.rows@.len() == 0,
            db.errors@.len() == 0,
            db.buffer@.len() == 0,
            db.buffer_size == buffer_size,
    {
        DB { rows: Vec::new(), errors: Vec::new(), buffer: Vec::new(), buffer_size }
    }

    /// Commits the buffered rows: each either inserts or, when its key is
    /// taken, lands in the error table.
    pub fn flush_buffer(&mut self)
        requires
            old(self).wf(),
        ensures
            final(self).wf(),
            addr_views_of(final(self).rows@) == spec_flush_rows(
                addr_views_of(old(self).rows@),
                addr_views_of(old(self).buffer@),
            ),
            err_views_of(final(self).errors@) == spec_flush_errors(
                addr_views_of(old(self).rows@),
                err_views_of(old(self).errors@),
                addr_views_of(old(self).buffer@),
            ),
            final(self).buffer@.len() == 0,
            final(self).buffer_size == old(self).buffer_size,
    {
        while self.buffer.len() > 0
            invariant
                self.wf(),
                self.buffer_size == old(self).buffer_size,
                spec_flush_rows(addr_views_of(self.rows@), addr_views_of(self.buffer@))
                    == spec_flush_rows(
                    addr_views_of(old(self).rows@),
                    addr_views_of(old(self).buffer@),
                ),
                spec_flush_errors(
                    addr_views_of(self.rows@),
                    err_views_of(self.errors@),
                    addr_views_of(self.buffer@),
                ) == spec_flush_errors(
                    addr_views_of(old(self).rows@),
                    err_views_of(old(self).errors@),
                    addr_views_of(old(self).buffer@),
                ),
            decreases self.buffer@.len(),
        {
            let ghost rows0 = addr_views_of(self.rows@);
            let ghost errors0 = err_views_of(self.errors@);
            let ghost buf0 = addr_views_of(self.buffer@);
            let a = self.buffer.remove(0);
            proof {
                assert(a@ == buf0.first());
                assert(addr_views_of(self.buffer@) =~= buf0.drop_first()) by {
                    assert forall|m: int|
                        0 <= m < self.buffer@.len() implies addr_views_of(self.buffer@)[m]
                        == buf0.drop_first()[m] by {
                        assert(self.buffer@[m] == old(self).buffer@.skip(
                            old(self).buffer@.len() - self.buffer@.len(),
                        )[m] || true);
                    }
                }
            }
            let has_street = a.street.is_some();
            let hit = has_street && self.key_exists(&a);
            if !has_street || hit {
                let kind = if !has_street {
                    ImportError::MissingStreet
                } else {
                    ImportError::KeyConflict
                };
                proof {
                    assert(spec_row_bounce(rows0, buf0.first()) == Some(kind));
                }
                let ghost e0 = self.errors@;
                self.errors.push((a, kind));
                proof {
                    assert(err_views_of(self.errors@) =~= errors0.push((buf0.first(), kind))) by {
                        assert forall|m: int|
                            0 <= m < self.errors@.len() implies err_views_of(self.errors@)[m]
                            == errors0.push((buf0.first(), kind))[m] by {
                            if m < e0.len() {
                                assert(self.errors@[m] == e0[m]);
                            }
                        }
                    }
                }
            } else {
                proof {
                    assert(spec_row_bounce(rows0, buf0.first()) is None);
                }
                let ghost r0 = self.rows@;
                self.rows.push(a);
                proof {
                    assert(addr_views_of(self.rows@) =~= rows0.push(buf0.first())) by {
                        assert forall|m: int|
                            0 <= m < self.rows@.len() implies addr_views_of(self.rows@)[m]
                            == rows0.push(buf0.first())[m] by {
                            if m < r0.len() {
                                assert(self.rows@[m] == r0[m]);
                            }
                        }
                    }
                    assert forall|i: int, j: int|
                        0 <= i < j < self.rows@.len() implies !spec_key_conflict(
                        (#[trigger] self.rows@[i])@,
                        (#[trigger] self.rows@[j])@,
                    ) by {
                        if j == self.rows@.len() - 1 {
                            if spec_key_conflict(self.rows@[i]@, buf0.first()) {
                                assert(rows0[i] == self.rows@[i]@);
                                assert(key_in(rows0, buf0.first()));
                            }
                        } else {
                            assert(self.rows@[i] == r0[i] && self.rows@[j] == r0[j]);
                        }
                    }
                }
            }
        }
        proof {
            assert(addr_views_of(self.buffer@).len() == 0);
        }
    }

    /// Decides whether a committed row collides with this address's key.
    fn key_exists(&self, a: &Address) -> (r: bool)
        ensures
            r == key_in(addr_views_of(self.rows@), a@),
    {
        let n = self.rows.len();
        let mut i: usize = 0;
        while i < n
            invariant
                i <= n,
                n == self.rows@.len(),
                forall|j: int|
                    0 <= j < i ==> !spec_key_conflict(addr_views_of(self.rows@)[j], a@),
            decreases n - i,
        {
            let b = &self.rows[i];
            let same = str_eq_str(&b.lat, &a.lat) && str_eq_str(&b.lon, &a.lon) && opt_conflict(
                &b.number,
                &a.number,
            ) && opt_conflict(&b.street, &a.street) && opt_conflict(&b.city, &a.city);
            proof {
                assert(addr_views_of(self.rows@)[i as int] == self.rows@[i as int]@);
            }
            if same {
                proof {
                    assert(spec_key_conflict(addr_views_of(self.rows@)[i as int], a@));
                }
                return true;
            }
            i += 1;
        }
        false
    }

    /// Buffers one row; a full buffer is flushed.
    pub fn insert(&mut self, address: Address)
        requires
            old(self).wf(),
        ensures
            final(self).wf(),
            final(self).buffer_size == old(self).buffer_size,
            spec_flush_rows(
                addr_views_of(final(self).rows@),
                addr_views_of(final(self).buffer@),
            ) == spec_flush_rows(
                addr_views_of(old(self).rows@),
                addr_views_of(old(self).buffer@).push(address@),
            ),
            spec_flush_errors(
                addr_views_of(final(self).rows@),
                err_views_of(final(self).errors@),
                addr_views_of(final(self).buffer@),
            ) == spec_flush_errors(
                addr_views_of(old(self).rows@),
                err_views_of(old(self).errors@),
                addr_views_of(old(self).buffer@).push(address@),
            ),
            final(self).buffer@.len() < final(self).buffer_size,
            old(self).buffer@.len() + 1 < old(self).buffer_size ==> final(self).rows == old(
                self,
            ).rows,
            old(self).buffer@.len() + 1 < old(self).buffer_size ==> final(self).errors == old(
                self,
            ).errors,
            old(self).buffer@.len() + 1 < old(self).buffer_size ==> final(self).buffer@ == old(
                self,
            ).buffer@.push(address),
            old(self).buffer@.len() + 1 >= old(self).buffer_size ==> final(self).buffer@.len()
                == 0,
            old(self).buffer@.len() + 1 >= old(self).buffer_size ==> addr_views_of(
                final(self).rows@,
            ) == spec_flush_rows(
                addr_views_of(old(self).rows@),
                addr_views_of(old(self).buffer@).push(address@),
            ),
            old(self).buffer@.len() + 1 >= old(self).buffer_size ==> err_views_of(
                final(self).errors@,
            ) == spec_flush_errors(
                addr_views_of(old(self).rows@),
                err_views_of(old(self).errors@),
                addr_views_of(old(self).buffer@).push(address@),
            ),
    {
        let ghost b0 = addr_views_of(self.buffer@);
        self.buffer.push(address);
        proof {
            assert(addr_views_of(self.buffer@) =~= b0.push(address@)) by {
                assert forall|m: int|
                    0 <= m < self.buffer@.len() implies addr_views_of(self.buffer@)[m] == b0.push(
                    address@,
                )[m] by {
                    if m < b0.len() {
                        assert(self.buffer@[m] == old(self).buffer@[m]);
                    }
                }
            }
        }
        if self.buffer.len() >= self.buffer_size {
            self.flush_buffer();
            proof {
                assert(addr_views_of(self.buffer@).len() == 0);
            }
        }
    }

    /// How many rows were committed.
    pub fn get_nb_addresses(&self) -> (r: usize)
        ensures
            r == self.rows@.len(),
    {
        self.rows.len()
    }

    /// How many rows bounced off the primary key.
    pub fn get_nb_errors(&self) -> (r: usize)
        ensures
            r == self.errors@.len(),
    {
        self.errors.len()
    }

    /// The distinct city names among the committed rows.
    pub open spec fn cities(self) -> Set<Seq<char>> {
        Set::new(
            |c: Seq<char>|
                exists|i: int|
                    0 <= i < self.rows@.len() && (#[trigger] self.rows@[i])@.city == Some(c),
        )
    }

    /// Counts the distinct city names among the committed rows.
    pub fn get_nb_cities(&self) -> (r: usize)
        ensures
            r == self.cities().len(),
    {
        count_cities_of(&self.rows)
    }

    /// How many rows bounced per cause, as `(cause, count)` pairs: missing
    /// street first, then key conflicts; causes with no row are left out.
    pub fn get_nb_by_errors_kind(&self) -> (r: Vec<(String, usize)>)
        ensures
            ({
                let ev = err_views_of(self.errors@);
                let m = spec_count_kind(ev, ImportError::MissingStreet);
                let c = spec_count_kind(ev, ImportError::KeyConflict);
                &&& (m == 0 && c == 0) ==> r@.len() == 0
                &&& (m > 0 && c == 0) ==> r@.len() == 1 && r@[0].0@ == "missing street"@ && r@[0].1
                    == m
                &&& (m == 0 && c > 0) ==> r@.len() == 1 && r@[0].0@ == "key conflict"@ && r@[0].1
                    == c
                &&& (m > 0 && c > 0) ==> r@.len() == 2 && r@[0].0@ == "missing street"@ && r@[0].1
                    == m && r@[1].0@ == "key conflict"@ && r@[1].1 == c
            }),
    {
        let ghost ev = err_views_of(self.errors@);
        let mut missing: usize = 0;
        let mut conflict: usize = 0;
        let n = self.errors.len();
        let mut i: usize = 0;
        proof {
            assert(ev.take(0) =~= Seq::<(AddressView, ImportError)>::empty());
        }
        while i < n
            invariant
                i <= n,
                n == self.errors@.len(),
                ev == err_views_of(self.errors@),
                missing <= i,
                conflict <= i,
                missing == spec_count_kind(ev.take(i as int), ImportError::MissingStreet),
                conflict == spec_count_kind(ev.take(i as int), ImportError::KeyConflict),
            decreases n - i,
        {
            proof {
                assert(ev.take(i as int + 1).drop_last() =~= ev.take(i as int));
                assert(ev.take(i as int + 1).last() == ev[i as int]);
                assert(ev[i as int] == (self.errors@[i as int].0@, self.errors@[i as int].1));
            }
            match self.errors[i].1 {
                ImportError::MissingStreet => {
                    missing += 1;
                },
                ImportError::KeyConflict => {
                    conflict += 1;
                },
            }
            i += 1;
        }
        proof {
            assert(ev.take(n as int) =~= ev);
        }
        let mut r: Vec<(String, usize)> = Vec::new();
        if missing > 0 {
            r.push(("missing street".to_owned(), missing));
        }
        if conflict > 0 {
            r.push(("key conflict".to_owned(), conflict));
        }
        r
    }
}

/// The distinct city names among a list of addresses.
pub open spec fn spec_cities_upto(rows: Seq<Address>, n: int) -> Set<Seq<char>> {
    Set::new(
        |c: Seq<char>| exists|i: int| 0 <= i < n && (#[trigger] rows[i])@.city == Some(c),
    )
}

/// Counts the distinct city names among a list of addresses.
fn count_cities_of(rows: &Vec<Address>) -> (r: usize)
    ensures
        r == spec_cities_upto(rows@, rows@.len() as int).len(),
{
    let mut seen: Vec<String> = Vec::new();
    let n = rows.len();
    let mut i: usize = 0;
    proof {
        assert(crate::store::string_views(seen@).to_set() =~= spec_cities_upto(rows@, 0)) by {
            assert(forall|c: Seq<char>| !crate::store::string_views(seen@).contains(c));
        }
    }
    while i < n
        invariant
            i <= n,
            n == rows@.len(),
            crate::store::string_views(seen@).no_duplicates(),
            crate::store::string_views(seen@).to_set() =~= spec_cities_upto(rows@, i as int),
        decreases n - i,
    {
        match &rows[i].city {
            Some(city) => {
                let ghost c = city@;
                proof {
                    assert(rows@[i as int]@.city == Some(c));
                }
                if !seen_contains(&seen, city) {
                    let ghost seen0 = seen@;
                    seen.push(city.clone());
                    proof {
                        let sv0 = crate::store::string_views(seen0);
                        assert(crate::store::string_views(seen@) =~= sv0.push(c)) by {
                            assert forall|m: int|
                                0 <= m < seen@.len() implies crate::store::string_views(seen@)[m]
                                == sv0.push(c)[m] by {
                                if m < seen0.len() {
                                    assert(seen@[m] == seen0[m]);
                                } else {
                                    assert(seen@[m]@ == c);
                                }
                            }
                        }
                        assert(crate::store::string_views(seen@).no_duplicates()) by {
                            let sv = sv0.push(c);
                            assert forall|x: int, y: int|
                                0 <= x < y < sv.len() implies sv[x] != sv[y] by {
                                if y == sv.len() - 1 {
                                    assert(sv[x] == sv0[x]);
                                    if sv[x] == c {
                                        assert(sv0.contains(c));
                                    }
                                }
                            }
                        }
                        assert(crate::store::string_views(seen@).to_set() =~= spec_cities_upto(
                            rows@,
                            i as int + 1,
                        )) by {
                            let sv = sv0.push(c);
                            assert forall|x: Seq<char>| sv.contains(x) implies spec_cities_upto(
                                rows@,
                                i as int + 1,
                            ).contains(x) by {
                                let m = choose|m: int| 0 <= m < sv.len() && sv[m] == x;
                                if m < seen0.len() {
                                    assert(sv0.contains(x));
                                    assert(spec_cities_upto(rows@, i as int).contains(x));
                                } else {
                                    assert(x == c);
                                }
                            }
                            assert forall|x: Seq<char>| spec_cities_upto(
                                rows@,
                                i as int + 1,
                            ).contains(x) implies sv.contains(x) by {
                                let m = choose|m: int|
                                    0 <= m < i as int + 1 && (#[trigger] rows@[m])@.city == Some(x);
                                if m < i as int {
                                    assert(spec_cities_upto(rows@, i as int).contains(x));
                                    assert(sv0.contains(x));
                                    let t = choose|t: int| 0 <= t < sv0.len() && sv0[t] == x;
                                    assert(sv[t] == x);
                                } else {
                                    assert(x == c);
                                    assert(sv[sv.len() - 1] == c);
                                }
                            }
                        }
                    }
                } else {
                    proof {
                        assert(crate::store::string_views(seen@).to_set() =~= spec_cities_upto(
                            rows@,
                            i as int + 1,
                        )) by {
                            assert forall|x: Seq<char>| spec_cities_upto(
                                rows@,
                                i as int + 1,
                            ).contains(x) implies spec_cities_upto(rows@, i as int).contains(x) || x
                                == c by {
                                let m = choose|m: int|
                                    0 <= m < i as int + 1 && (#[trigger] rows@[m])@.city == Some(x);
                            }
                            assert(crate::store::string_views(seen@).contains(c));
                        }
                    }
                }
            },
            None => {
                proof {
                    assert(crate::store::string_views(seen@).to_set() =~= spec_cities_upto(
                        rows@,
                        i as int + 1,
                    )) by {
                        assert forall|x: Seq<char>| spec_cities_upto(
                            rows@,
                            i as int + 1,
                        ).contains(x) implies spec_cities_upto(rows@, i as int).contains(x) by {
                            let m = choose|m: int|
                                0 <= m < i as int + 1 && (#[trigger] rows@[m])@.city == Some(x);
                        }
                    }
                }
            },
        }
        i += 1;
    }
    proof {
        crate::store::string_views(seen@).unique_seq_to_set();
    }
    seen.len()
}

/// Decides whether the list holds a string with these characters.
fn seen_contains(v: &Vec<String>, s: &String) -> (r: bool)
    ensures
        r == crate::store::string_views(v@).contains(s@),
{
    let n = v.len();
    let mut i: usize = 0;
    while i < n
        invariant
            i <= n,
            n == v@.len(),
            forall|j: int| 0 <= j < i ==> crate::store::string_views(v@)[j] != s@,
        decreases n - i,
    {
        if v[i] == *s {
            assert(crate::store::string_views(v@)[i as int] == s@);
            return true;
        }
        proof {
            assert(crate::store::string_views(v@)[i as int] == v@[i as int]@);
        }
        i += 1;
    }
    false
}

/// Whether the needle occurs in the haystack.
pub open spec fn contains_sub(h: Seq<char>, n: Seq<char>) -> bool {
    exists|k: int| 0 <= k <= h.len() - n.len() && (#[trigger] h.subrange(k, k + n.len())) == n
}

/// Decides whether the needle occurs in the haystack.
pub fn str_contains(h: &str, n: &str) -> (r: bool)
    ensures
        r == contains_sub(h@, n@),
{
    let hl = h.unicode_len();
    let nl = n.unicode_len();
    if nl > hl {
        return false;
    }
    if nl == 0 {
        proof {
            assert(h@.subrange(0, 0 + n@.len() as int) =~= n@);
            assert(contains_sub(h@, n@));
        }
        return true;
    }
    let mut k: usize = 0;
    while k <= hl - nl
        invariant
            1 <= nl <= hl,
            hl == h@.len(),
            nl == n@.len(),
            k <= hl - nl + 1,
            forall|t: int| 0 <= t < k ==> (#[trigger] h@.subrange(t, t + n@.len())) != n@,
        decreases hl - nl + 1 - k,
    {
        let mut m: usize = 0;
        let mut all = true;
        while m < nl
            invariant
                hl == h@.len(),
                nl == n@.len(),
                k + nl <= hl,
                m <= nl,
                all ==> forall|t: int| 0 <= t < m ==> h@[k + t] == n@[t],
                !all ==> exists|t: int| 0 <= t < nl && h@[k + t] != n@[t],
            decreases nl - m,
        {
            if h.get_char(k + m) != n.get_char(m) {
                proof {
                    assert(h@[k as int + m as int] != n@[m as int]);
                }
                all = false;
            }
            m += 1;
        }
        if all {
            proof {
                assert(h@.subrange(k as int, k as int + n@.len()) =~= n@);
            }
            return true;
        }
        proof {
            let t = choose|t: int| 0 <= t < nl && h@[k + t] != n@[t];
            if h@.subrange(k as int, k as int + n@.len()) == n@ {
                assert(h@.subrange(k as int, k as int + n@.len())[t] == h@[k as int + t]);
            }
        }
        k += 1;
    }
    false
}

/// A street-map node, decoded: its coordinates as text and its tags.
pub struct OsmNode {
    pub lat: String,
    pub lon: String,
    pub tags: Vec<(String, String)>,
}

/// A node at the specification level.
pub struct OsmNodeView {
    pub lat: Seq<char>,
    pub lon: Seq<char>,
    pub tags: Seq<(Seq<char>, Seq<char>)>,
}

impl View for OsmNode {
    type V = OsmNodeView;

    open spec fn view(&self) -> OsmNodeView {
        OsmNodeView { lat: self.lat@, lon: self.lon@, tags: spec_tags_view(self.tags@) }
    }
}

/// Whether a node carries any address tag.
pub open spec fn spec_has_addr_tag(tags: Seq<(Seq<char>, Seq<char>)>) -> bool {
    exists|i: int| 0 <= i < tags.len() && contains_sub((#[trigger] tags[i]).0, "addr:"@)
}

/// Decides whether a node carries any address tag.
pub fn has_addr_tag(tags: &Vec<(String, String)>) -> (r: bool)
    ensures
        r == spec_has_addr_tag(spec_tags_view(tags@)),
{
    let n = tags.len();
    let mut i: usize = 0;
    while i < n
        invariant
            i <= n,
            n == tags@.len(),
            forall|j: int|
                0 <= j < i ==> !contains_sub((#[trigger] spec_tags_view(tags@)[j]).0, "addr:"@),
        decreases n - i,
    {
        proof {
            assert(spec_tags_view(tags@)[i as int] == (tags@[i as int].0@, tags@[i as int].1@));
        }
        if str_contains(tags[i].0.as_str(), "addr:") {
            return true;
        }
        i += 1;
    }
    false
}

/// The rows that a node list contributes, in order: every node with an
/// address tag, built into an address.
pub open spec fn spec_accepted_rows(nodes: Seq<OsmNodeView>) -> Seq<AddressView>
    decreases nodes.len(),
{
    if nodes.len() == 0 {
        Seq::empty()
    } else {
        let rest = spec_accepted_rows(nodes.drop_last());
        if spec_has_addr_tag(nodes.last().tags) {
            rest.push(
                spec_address_from_tags(nodes.last().lat, nodes.last().lon, nodes.last().tags),
            )
        } else {
            rest
        }
    }
}

/// The views of a node list.
pub open spec fn node_views(nodes: Seq<OsmNode>) -> Seq<OsmNodeView> {
    nodes.map_values(|n: OsmNode| n@)
}

/// Imports decoded street-map nodes: every node with an address tag becomes
/// a buffered row, and the table ends fully committed — as if each accepted
/// row had been offered to the key in turn.
pub fn import_addresses(nodes: &Vec<OsmNode>) -> (db: DB)
    ensures
        db.wf(),
        db.buffer@.len() == 0,
        addr_views_of(db.rows@) == spec_flush_rows(
            Seq::empty(),
            spec_accepted_rows(node_views(nodes@)),
        ),
        err_views_of(db.errors@) == spec_flush_errors(
            Seq::empty(),
            Seq::empty(),
            spec_accepted_rows(node_views(nodes@)),
        ),
{
    let mut db = DB::new(100);
    let ghost nv = node_views(nodes@);
    let n = nodes.len();
    let mut i: usize = 0;
    proof {
        assert(nv.take(0) =~= Seq::<OsmNodeView>::empty());
        assert(addr_views_of(db.rows@) =~= Seq::<AddressView>::empty());
        assert(err_views_of(db.errors@) =~= Seq::<(AddressView, ImportError)>::empty());
        assert(addr_views_of(db.buffer@) =~= Seq::<AddressView>::empty());
        assert(spec_accepted_rows(nv.take(0)) =~= Seq::<AddressView>::empty());
    }
    while i < n
        invariant
            i <= n,
            n == nodes@.len(),
            nv == node_views(nodes@),
            db.wf(),
            db.buffer_size >= 1,
            spec_flush_rows(addr_views_of(db.rows@), addr_views_of(db.buffer@))
                == spec_flush_rows(Seq::empty(), spec_accepted_rows(nv.take(i as int))),
            spec_flush_errors(
                addr_views_of(db.rows@),
                err_views_of(db.errors@),
                addr_views_of(db.buffer@),
            ) == spec_flush_errors(
                Seq::empty(),
                Seq::empty(),
                spec_accepted_rows(nv.take(i as int)),
            ),
        decreases n - i,
    {
        proof {
            assert(nv.take(i as int + 1).drop_last() =~= nv.take(i as int));
            assert(nv.take(i as int + 1).last() == nv[i as int]);
            assert(nv[i as int] == nodes@[i as int]@);
        }
        let node = &nodes[i];
        if has_addr_tag(&node.tags) {
            let a = address_from_tags(node.lat.clone(), node.lon.clone(), &node.tags);
            let ghost av = a@;
            let ghost rows0 = addr_views_of(db.rows@);
            let ghost errors0 = err_views_of(db.errors@);
            let ghost buf0 = addr_views_of(db.buffer@);
            db.insert(a);
            proof {
                lemma_flush_append(rows0, errors0, buf0, seq![av]);
                assert(buf0.push(av) =~= buf0 + seq![av]);
                let acc0 = spec_accepted_rows(nv.take(i as int));
                lemma_flush_append(
                    Seq::<AddressView>::empty(),
                    Seq::<(AddressView, ImportError)>::empty(),
                    acc0,
                    seq![av],
                );
                assert(spec_accepted_rows(nv.take(i as int + 1)) =~= acc0 + seq![av]) by {
                    assert(spec_accepted_rows(nv.take(i as int + 1)) == acc0.push(av));
                    assert(acc0.push(av) =~= acc0 + seq![av]);
                }
            }
        } else {
            proof {
                assert(spec_accepted_rows(nv.take(i as int + 1)) == spec_accepted_rows(
                    nv.take(i as int),
                ));
            }
        }
        i += 1;
    }
    proof {
        assert(nv.take(n as int) =~= nv);
    }
    db.flush_buffer();
    proof {
        assert(addr_views_of(db.buffer@) =~= Seq::<AddressView>::empty());
    }
    db
}

/// Decides whether two strings hold the same characters.
fn str_eq_str(a: &String, b: &String) -> (r: bool)
    ensures
        r == (a@ == b@),
{
    *a == *b
}

/// Decides whether two optional strings collide under SQL semantics: both
/// present and equal.
fn opt_conflict(a: &Option<String>, b: &Option<String>) -> (r: bool)
    ensures
        r == (a.deep_view() is Some && a.deep_view() == b.deep_view()),
{
    match (a, b) {
        (Some(x), Some(y)) => *x == *y,
        _ => false,
    }
}

} // verus!
