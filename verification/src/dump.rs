//! The dump emitter: every stored address as one CSV row, the whole dump
//! gzip-compressed. Fields are quoted, with quotes doubled, so an absent
//! field and an empty one stay distinguishable.

use std::io::Read;
use std::io::Write;

use vstd::prelude::*;

use crate::address::{Address, AddressView};
use crate::deduplicator::Deduplicator;
use crate::store::{Store, StoredAddress};

verus! {

/// A field's characters with every quote doubled.
pub open spec fn spec_esc(s: Seq<char>) -> Seq<char>
    decreases s.len(),
{
    if s.len() == 0 {
        Seq::empty()
    } else {
        (if s.first() == '"' {
            seq!['"', '"']
        } else {
            seq![s.first()]
        }) + spec_esc(s.drop_first())
    }
}

/// One encoded field: an absent field is empty, a present one is quoted.
pub open spec fn spec_enc_field(o: Option<Seq<char>>) -> Seq<char> {
    match o {
        None => Seq::empty(),
        Some(s) => seq!['"'] + spec_esc(s) + seq!['"'],
    }
}

/// One encoded row, in the open-data column order.
pub open spec fn spec_enc_row(a: AddressView) -> Seq<char> {
    spec_enc_field(Some(a.lon)) + seq![','] + spec_enc_field(Some(a.lat)) + seq![',']
        + spec_enc_field(a.number) + seq![','] + spec_enc_field(a.street) + seq![',']
        + spec_enc_field(a.unit) + seq![','] + spec_enc_field(a.city) + seq![','] + spec_enc_field(
        a.district,
    ) + seq![','] + spec_enc_field(a.region) + seq![','] + spec_enc_field(a.postcode) + seq!['\n']
}

/// The header row.
pub open spec fn spec_header() -> Seq<char> {
    "lon,lat,number,street,unit,city,district,region,postcode\n"@
}

/// The encoded rows, in order.
pub open spec fn spec_enc_rows(rows: Seq<AddressView>) -> Seq<char>
    decreases rows.len(),
{
    if rows.len() == 0 {
        Seq::empty()
    } else {
        spec_enc_rows(rows.drop_last()) + spec_enc_row(rows.last())
    }
}

/// The whole dump: the header, then one row per address.
pub open spec fn spec_csv_dump(rows: Seq<AddressView>) -> Seq<char> {
    spec_header() + spec_enc_rows(rows)
}

/// Escaping never shortens a field and hides nothing: two fields with the
/// same escaped text are the same field.
pub proof fn lemma_esc_injective(s1: Seq<char>, s2: Seq<char>)
    requires
        spec_esc(s1) == spec_esc(s2),
    ensures
        s1 == s2,
    decreases s1.len(),
{
    if s1.len() == 0 && s2.len() == 0 {
        assert(s1 =~= s2);
    } else if s1.len() == 0 {
        assert(spec_esc(s2).len() > 0);
        assert(spec_esc(s1).len() == 0);
    } else if s2.len() == 0 {
        assert(spec_esc(s1).len() > 0);
        assert(spec_esc(s2).len() == 0);
    } else {
        let h1: Seq<char> = if s1.first() == '"' {
            seq!['"', '"']
        } else {
            seq![s1.first()]
        };
        let h2: Seq<char> = if s2.first() == '"' {
            seq!['"', '"']
        } else {
            seq![s2.first()]
        };
        assert(spec_esc(s1) == h1 + spec_esc(s1.drop_first()));
        assert(spec_esc(s2) == h2 + spec_esc(s2.drop_first()));
        assert((h1 + spec_esc(s1.drop_first()))[0] == h1[0]);
        assert((h2 + spec_esc(s2.drop_first()))[0] == h2[0]);
        assert(s1.first() == s2.first()) by {
            if s1.first() == '"' && s2.first() != '"' {
                assert(h1[0] == '"' && h2[0] == s2.first());
            } else if s1.first() != '"' && s2.first() == '"' {
                assert(h1[0] == s1.first() && h2[0] == '"');
            } else if s1.first() != '"' && s2.first() != '"' {
                assert(h1[0] == s1.first() && h2[0] == s2.first());
            }
        }
        assert(h1 == h2);
        assert(spec_esc(s1.drop_first()) == spec_esc(s2.drop_first())) by {
            assert((h1 + spec_esc(s1.drop_first())).skip(h1.len() as int) =~= spec_esc(
                s1.drop_first(),
            ));
            assert((h2 + spec_esc(s2.drop_first())).skip(h2.len() as int) =~= spec_esc(
                s2.drop_first(),
            ));
        }
        lemma_esc_injective(s1.drop_first(), s2.drop_first());
        assert(s1 =~= s2) by {
            assert(s1.drop_first() =~= s2.drop_first());
            assert forall|m: int| 0 <= m < s1.len() implies s1[m] == s2[m] by {
                if m > 0 {
                    assert(s1.drop_first()[m - 1] == s1[m]);
                    assert(s2.drop_first()[m - 1] == s2[m]);
                }
            }
        }
    }
}

/// A field's encoding pins the field down: an absent field, an empty one and
/// any text all encode differently, so a dumped field can be read back
/// exactly.
pub proof fn lemma_enc_field_injective(o1: Option<Seq<char>>, o2: Option<Seq<char>>)
    requires
        spec_enc_field(o1) == spec_enc_field(o2),
    ensures
        o1 == o2,
{
    match (o1, o2) {
        (None, None) => {},
        (None, Some(s)) => {
            assert(spec_enc_field(o1).len() == 0);
            assert(spec_enc_field(o2).len() >= 2);
        },
        (Some(s), None) => {
            assert(spec_enc_field(o2).len() == 0);
            assert(spec_enc_field(o1).len() >= 2);
        },
        (Some(s1), Some(s2)) => {
            let e1 = spec_enc_field(o1);
            let e2 = spec_enc_field(o2);
            assert(e1.len() == spec_esc(s1).len() + 2);
            assert(e2.len() == spec_esc(s2).len() + 2);
            assert(spec_esc(s1) == spec_esc(s2)) by {
                assert(e1.subrange(1, e1.len() - 1) =~= spec_esc(s1));
                assert(e2.subrange(1, e2.len() - 1) =~= spec_esc(s2));
            }
            lemma_esc_injective(s1, s2);
        },
    }
}

/// The views of the stored addresses, in order.
pub open spec fn stored_views(rows: Seq<StoredAddress>) -> Seq<AddressView> {
    rows.map_values(|sa: StoredAddress| sa.address@)
}

/// Appends a string's characters.
fn push_str_chars(out: &mut Vec<char>, s: &str)
    ensures
        final(out)@ == old(out)@ + s@,
{
    let n = s.unicode_len();
    let mut i: usize = 0;
    while i < n
        invariant
            i <= n,
            n == s@.len(),
            out@ == old(out)@ + s@.take(i as int),
        decreases n - i,
    {
        let c = s.get_char(i);
        out.push(c);
        proof {
            assert(out@ =~= old(out)@ + s@.take(i as int + 1));
        }
        i += 1;
    }
    proof {
        assert(s@.take(n as int) =~= s@);
        assert(out@ =~= old(out)@ + s@);
    }
}

/// Appends a field's characters, quotes doubled.
fn push_escaped(out: &mut Vec<char>, s: &str)
    ensures
        final(out)@ == old(out)@ + spec_esc(s@),
{
    let n = s.unicode_len();
    let mut i: usize = 0;
    proof {
        assert(s@.skip(0) =~= s@);
    }
    while i < n
        invariant
            i <= n,
            n == s@.len(),
            old(out)@ + spec_esc(s@) == out@ + spec_esc(s@.skip(i as int)),
        decreases n - i,
    {
        let c = s.get_char(i);
        proof {
            assert(s@.skip(i as int).first() == s@[i as int]);
            assert(s@.skip(i as int).drop_first() =~= s@.skip(i as int + 1));
        }
        let ghost pre = out@;
        if c == '"' {
            out.push('"');
            out.push('"');
            proof {
                assert(out@ =~= pre + seq!['"', '"']);
                assert((pre + seq!['"', '"']) + spec_esc(s@.skip(i as int + 1)) =~= pre + (seq![
                    '"',
                    '"',
                ] + spec_esc(s@.skip(i as int + 1))));
            }
        } else {
            out.push(c);
            proof {
                assert(out@ =~= pre + seq![c]);
                assert((pre + seq![c]) + spec_esc(s@.skip(i as int + 1)) =~= pre + (seq![c]
                    + spec_esc(s@.skip(i as int + 1))));
            }
        }
        i += 1;
    }
    proof {
        assert(s@.skip(n as int) =~= Seq::<char>::empty());
        assert(out@ + Seq::<char>::empty() =~= out@);
    }
}

/// Appends one encoded field.
fn push_field(out: &mut Vec<char>, o: &Option<String>)
    ensures
        final(out)@ == old(out)@ + spec_enc_field(o.deep_view()),
{
    match o {
        None => {
            proof {
                assert(out@ + Seq::<char>::empty() =~= out@);
            }
        },
        Some(s) => {
            let ghost pre = out@;
            out.push('"');
            proof {
                assert(out@ =~= pre + seq!['"']);
            }
            push_escaped(out, s.as_str());
            out.push('"');
            proof {
                assert(out@ =~= ((pre + seq!['"']) + spec_esc(s@)) + seq!['"']);
                assert(((pre + seq!['"']) + spec_esc(s@)) + seq!['"'] =~= pre + ((seq!['"']
                    + spec_esc(s@)) + seq!['"']));
                assert((seq!['"'] + spec_esc(s@)) + seq!['"'] =~= seq!['"'] + spec_esc(s@) + seq![
                    '"',
                ]);
            }
        },
    }
}

/// Appends one encoded row.
#[verifier::rlimit(100)]
#[verifier::spinoff_prover]
fn push_row(out: &mut Vec<char>, a: &Address)
    ensures
        final(out)@ == old(out)@ + spec_enc_row(a@),
{
    let ghost pre = out@;
    push_field(out, &Some(a.lon.clone()));
    out.push(',');
    push_field(out, &Some(a.lat.clone()));
    out.push(',');
    push_field(out, &a.number);
    out.push(',');
    push_field(out, &a.street);
    out.push(',');
    push_field(out, &a.unit);
    out.push(',');
    push_field(out, &a.city);
    out.push(',');
    push_field(out, &a.district);
    out.push(',');
    push_field(out, &a.region);
    out.push(',');
    push_field(out, &a.postcode);
    out.push('\n');
    proof {
        assert(out@ =~= pre + spec_enc_row(a@));
    }
}

/// Encodes every stored address as CSV, header first.
pub fn csv_dump(store: &Store) -> (r: Vec<char>)
    ensures
        r@ == spec_csv_dump(stored_views(store.addresses@)),
{
    let mut out: Vec<char> = Vec::new();
    proof {
        assert(out@ =~= Seq::<char>::empty());
        reveal_strlit("lon,lat,number,street,unit,city,district,region,postcode\n");
    }
    push_str_chars(&mut out, "lon,lat,number,street,unit,city,district,region,postcode\n");
    proof {
        assert(out@ =~= spec_header());
    }
    let ghost views = stored_views(store.addresses@);
    let n = store.addresses.len();
    let mut i: usize = 0;
    proof {
        assert(spec_enc_rows(views.take(0)) =~= Seq::<char>::empty());
        assert(out@ =~= spec_header() + spec_enc_rows(views.take(0)));
    }
    while i < n
        invariant
            i <= n,
            n == store.addresses@.len(),
            views == stored_views(store.addresses@),
            out@ == spec_header() + spec_enc_rows(views.take(i as int)),
        decreases n - i,
    {
        let ghost pre = out@;
        push_row(&mut out, &store.addresses[i].address);
        proof {
            assert(views.take(i as int + 1).drop_last() =~= views.take(i as int));
            assert(views.take(i as int + 1).last() == views[i as int]);
            assert(views[i as int] == store.addresses@[i as int].address@);
            assert(out@ =~= spec_header() + spec_enc_rows(views.take(i as int + 1)));
        }
        i += 1;
    }
    proof {
        assert(views.take(n as int) =~= views);
    }
    out
}

/// The gzip stream of a text, as libflate's encoder produces it over a
/// header whose modification time is pinned to zero: with the header fixed,
/// the stream is a function of the characters alone.
pub uninterp spec fn gzip_of(s: Seq<char>) -> Seq<u8>;

/// Relies on libflate's gzip Encoder, writing into an in-memory buffer,
/// which never fails. The header's modification time is pinned to zero, so
/// the stream does not depend on the clock.
#[verifier::external_body]
fn gzip_chars(data: &Vec<char>) -> (r: Vec<u8>)
    ensures
        r@ == gzip_of(data@),
{
    let s: String = data.iter().collect();
    let header = libflate::gzip::HeaderBuilder::new().modification_time(0).finish();
    let options = libflate::gzip::EncodeOptions::new().header(header);
    let mut enc = libflate::gzip::Encoder::with_options(Vec::new(), options).expect(
        "gzip encoder init",
    );
    enc.write_all(s.as_bytes()).expect("gzip write");
    enc.finish().into_result().expect("gzip finish")
}

/// Whether a decode answers the compressed stream faithfully: whatever text
/// the stream compresses, the decode returned exactly that text.
pub open spec fn spec_gunzip_ok(data: Seq<u8>, r: Option<Vec<char>>) -> bool {
    forall|orig: Seq<char>| data == gzip_of(orig) ==> (r matches Some(v) && v@ == orig)
}

/// Relies on libflate's gzip Decoder: gzip is lossless, so decoding a
/// stream the encoder produced yields the text it was given.
#[verifier::external_body]
pub fn gunzip_chars(data: &Vec<u8>) -> (r: Option<Vec<char>>)
    ensures
        spec_gunzip_ok(data@, r),
{
    let mut dec = match libflate::gzip::Decoder::new(&data[..]) {
        Ok(d) => d,
        Err(_) => {
            return None;
        },
    };
    let mut buf = Vec::new();
    if dec.read_to_end(&mut buf).is_err() {
        return None;
    }
    match String::from_utf8(buf) {
        Ok(s) => Some(s.chars().collect()),
        Err(_) => None,
    }
}

impl Deduplicator {
    /// The dump: every stored address as one CSV row, gzip-compressed.
    pub fn openaddress_dump(&self) -> (r: Vec<u8>)
        ensures
            r@ == gzip_of(spec_csv_dump(stored_views(self.store.addresses@))),
    {
        let text = csv_dump(&self.store);
        gzip_chars(&text)
    }
}

/// Decompresses a dump back to its CSV text: on a dump this library wrote,
/// the text comes back exactly.
pub fn read_dump(data: &Vec<u8>) -> (r: Option<Vec<char>>)
    ensures
        spec_gunzip_ok(data@, r),
{
    gunzip_chars(data)
}

} // verus!
