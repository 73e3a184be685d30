//! Snapshot byte format: little-endian fixed-width numbers, length-prefixed
//! UTF-8 text, tagged options, and counted lists. The parser is the exact
//! inverse of the encoder on every well-formed snapshot.

use vstd::prelude::*;

use crate::data::{ProductModel, SaleItemRowModel, SaleRowModel, SettingsModel};
use crate::store::StoreModel;
use vstd::utf8::{decode_utf8, encode_utf8, encode_utf8_decode_utf8, encode_utf8_valid_utf8,
    valid_utf8};

verus! {

/// A segment of a decoded region equals the same segment of its encoding.
pub proof fn lemma_segment(b: Seq<u8>, i: int, e: Seq<u8>, off: int, len: int)
    requires
        0 <= i,
        i + e.len() <= b.len(),
        b.subrange(i, i + e.len()) == e,
        0 <= off,
        0 <= len,
        off + len <= e.len(),
    ensures
        b.subrange(i + off, i + off + len) =~= e.subrange(off, off + len),
{
    assert forall|x: int| 0 <= x < len implies #[trigger] b.subrange(i + off, i + off + len)[x]
        == e.subrange(off, off + len)[x] by {
        assert(b.subrange(i, i + e.len())[off + x] == b[i + off + x]);
    }
}

// ---------------------------------------------------------------------------
// Numbers.
// ---------------------------------------------------------------------------

/// A 64-bit number as eight little-endian bytes.
pub open spec fn le64(v: u64) -> Seq<u8> {
    seq![
        (v & 0xff) as u8,
        ((v >> 8) & 0xff) as u8,
        ((v >> 16) & 0xff) as u8,
        ((v >> 24) & 0xff) as u8,
        ((v >> 32) & 0xff) as u8,
        ((v >> 40) & 0xff) as u8,
        ((v >> 48) & 0xff) as u8,
        ((v >> 56) & 0xff) as u8,
    ]
}

/// The number stored little-endian at a position.
pub open spec fn u64_at(b: Seq<u8>, i: int) -> u64 {
    (b[i] as u64) | ((b[i + 1] as u64) << 8) | ((b[i + 2] as u64) << 16) | ((b[i + 3] as u64)
        << 24) | ((b[i + 4] as u64) << 32) | ((b[i + 5] as u64) << 40) | ((b[i + 6] as u64) << 48)
        | ((b[i + 7] as u64) << 56)
}

/// Parse a 64-bit number.
pub open spec fn p_u64(b: Seq<u8>, i: int) -> Option<(u64, int)> {
    if 0 <= i && i + 8 <= b.len() {
        Some((u64_at(b, i), i + 8))
    } else {
        None
    }
}

pub proof fn lemma_le64_at(b: Seq<u8>, i: int, v: u64)
    requires
        0 <= i,
        i + 8 <= b.len(),
        b.subrange(i, i + 8) == le64(v),
    ensures
        p_u64(b, i) == Some((v, i + 8)),
{
    let b0 = b[i];
    let b1 = b[i + 1];
    let b2 = b[i + 2];
    let b3 = b[i + 3];
    let b4 = b[i + 4];
    let b5 = b[i + 5];
    let b6 = b[i + 6];
    let b7 = b[i + 7];
    assert(b.subrange(i, i + 8)[0] == b0);
    assert(b.subrange(i, i + 8)[1] == b1);
    assert(b.subrange(i, i + 8)[2] == b2);
    assert(b.subrange(i, i + 8)[3] == b3);
    assert(b.subrange(i, i + 8)[4] == b4);
    assert(b.subrange(i, i + 8)[5] == b5);
    assert(b.subrange(i, i + 8)[6] == b6);
    assert(b.subrange(i, i + 8)[7] == b7);
    assert(((b0 as u64) | ((b1 as u64) << 8) | ((b2 as u64) << 16) | ((b3 as u64) << 24) | ((
    b4 as u64) << 32) | ((b5 as u64) << 40) | ((b6 as u64) << 48) | ((b7 as u64) << 56)) == v)
        by (bit_vector)
        requires
            b0 == (v & 0xff) as u8,
            b1 == ((v >> 8) & 0xff) as u8,
            b2 == ((v >> 16) & 0xff) as u8,
            b3 == ((v >> 24) & 0xff) as u8,
            b4 == ((v >> 32) & 0xff) as u8,
            b5 == ((v >> 40) & 0xff) as u8,
            b6 == ((v >> 48) & 0xff) as u8,
            b7 == ((v >> 56) & 0xff) as u8,
    ;
}

/// A signed identity travels as its two's-complement bit pattern.
pub proof fn lemma_i64_roundtrip(x: i64)
    ensures
        ((x as u64) as i64) == x,
{
    assert(((x as u64) as i64) == x) by (bit_vector);
}

// ---------------------------------------------------------------------------
// Text.
// ---------------------------------------------------------------------------

/// The text's UTF-8 form fits behind a 64-bit length prefix.
pub open spec fn str_ok(s: Seq<char>) -> bool {
    encode_utf8(s).len() <= u64::MAX
}

/// Length-prefixed UTF-8 text.
pub open spec fn enc_str(s: Seq<char>) -> Seq<u8> {
    le64(encode_utf8(s).len() as u64) + encode_utf8(s)
}

/// Parse length-prefixed UTF-8 text.
pub open spec fn p_str(b: Seq<u8>, i: int) -> Option<(Seq<char>, int)> {
    match p_u64(b, i) {
        Some((n, j)) => {
            if j + n <= b.len() && valid_utf8(b.subrange(j, j + n)) {
                Some((decode_utf8(b.subrange(j, j + n)), j + n))
            } else {
                None
            }
        },
        None => None,
    }
}

pub proof fn lemma_enc_str_at(b: Seq<u8>, i: int, s: Seq<char>)
    requires
        0 <= i,
        i + enc_str(s).len() <= b.len(),
        b.subrange(i, i + enc_str(s).len()) == enc_str(s),
        str_ok(s),
    ensures
        p_str(b, i) == Some((s, i + enc_str(s).len())),
{
    let u = encode_utf8(s);
    let n = u.len() as u64;
    let e = enc_str(s);
    lemma_segment(b, i, e, 0, 8);
    assert(e.subrange(0, 8) =~= le64(n));
    assert(b.subrange(i, i + 8) =~= le64(n));
    lemma_le64_at(b, i, n);
    lemma_segment(b, i, e, 8, u.len() as int);
    assert(e.subrange(8, 8 + u.len() as int) =~= u);
    assert(b.subrange(i + 8, i + 8 + n) =~= u);
    encode_utf8_valid_utf8(s);
    encode_utf8_decode_utf8(s);
}

/// Optional text: a tag byte, then the text if present.
pub open spec fn enc_opt_str(o: Option<Seq<char>>) -> Seq<u8> {
    match o {
        None => seq![0u8],
        Some(s) => seq![1u8] + enc_str(s),
    }
}

/// Parse optional text.
pub open spec fn p_opt_str(b: Seq<u8>, i: int) -> Option<(Option<Seq<char>>, int)> {
    if 0 <= i && i < b.len() {
        if b[i] == 0 {
            Some((None, i + 1))
        } else if b[i] == 1 {
            match p_str(b, i + 1) {
                Some((s, j)) => Some((Some(s), j)),
                None => None,
            }
        } else {
            None
        }
    } else {
        None
    }
}

/// The optional text is present only with its UTF-8 form bounded.
pub open spec fn opt_str_ok(o: Option<Seq<char>>) -> bool {
    match o {
        None => true,
        Some(s) => str_ok(s),
    }
}

pub proof fn lemma_enc_opt_str_at(b: Seq<u8>, i: int, o: Option<Seq<char>>)
    requires
        0 <= i,
        i + enc_opt_str(o).len() <= b.len(),
        b.subrange(i, i + enc_opt_str(o).len()) == enc_opt_str(o),
        opt_str_ok(o),
    ensures
        p_opt_str(b, i) == Some((o, i + enc_opt_str(o).len())),
{
    match o {
        None => {
            assert(b.subrange(i, i + 1)[0] == b[i]);
            assert(b[i] == 0);
        },
        Some(s) => {
            let e = enc_opt_str(o);
            assert(b.subrange(i, i + e.len())[0] == b[i]);
            assert(b[i] == 1);
            lemma_segment(b, i, e, 1, enc_str(s).len() as int);
            assert(e.subrange(1, 1 + enc_str(s).len() as int) =~= enc_str(s));
            assert(b.subrange(i + 1, i + 1 + enc_str(s).len()) =~= enc_str(s));
            lemma_enc_str_at(b, i + 1, s);
        },
    }
}

/// A counted list of optional texts.
pub open spec fn enc_opt_strs(l: Seq<Option<Seq<char>>>) -> Seq<u8>
    decreases l.len(),
{
    if l.len() == 0 {
        Seq::empty()
    } else {
        enc_opt_str(l[0]) + enc_opt_strs(l.skip(1))
    }
}

/// Parse a fixed count of optional texts.
pub open spec fn p_opt_strs(b: Seq<u8>, i: int, n: nat) -> Option<(Seq<Option<Seq<char>>>, int)>
    decreases n,
{
    if n == 0 {
        Some((Seq::empty(), i))
    } else {
        match p_opt_str(b, i) {
            Some((o, j)) => match p_opt_strs(b, j, (n - 1) as nat) {
                Some((rest, k)) => Some((seq![o] + rest, k)),
                None => None,
            },
            None => None,
        }
    }
}

// ---------------------------------------------------------------------------
// Records.
// ---------------------------------------------------------------------------

/// The ten optional settings fields, in storage order.
pub open spec fn settings_fields(m: SettingsModel) -> Seq<Option<Seq<char>>> {
    seq![
        m.restaurant_name,
        m.address,
        m.phone,
        m.email,
        m.tax_rate,
        m.currency,
        m.opening_time,
        m.closing_time,
        m.receipt_footer,
        m.logo,
    ]
}

pub open spec fn settings_ok(m: SettingsModel) -> bool {
    forall|k: int|
        0 <= k < settings_fields(m).len() ==> opt_str_ok(#[trigger] settings_fields(m)[k])
}

pub open spec fn settings_of_fields(l: Seq<Option<Seq<char>>>) -> SettingsModel {
    SettingsModel {
        restaurant_name: l[0],
        address: l[1],
        phone: l[2],
        email: l[3],
        tax_rate: l[4],
        currency: l[5],
        opening_time: l[6],
        closing_time: l[7],
        receipt_footer: l[8],
        logo: l[9],
    }
}

pub open spec fn enc_settings(m: SettingsModel) -> Seq<u8> {
    enc_opt_strs(settings_fields(m))
}

pub open spec fn p_settings(b: Seq<u8>, i: int) -> Option<(SettingsModel, int)> {
    match p_opt_strs(b, i, 10) {
        Some((l, j)) => Some((settings_of_fields(l), j)),
        None => None,
    }
}

pub proof fn lemma_enc_settings_at(b: Seq<u8>, i: int, m: SettingsModel)
    requires
        0 <= i,
        i + enc_settings(m).len() <= b.len(),
        b.subrange(i, i + enc_settings(m).len()) == enc_settings(m),
        settings_ok(m),
    ensures
        p_settings(b, i) == Some((m, i + enc_settings(m).len())),
{
    lemma_enc_opt_strs_at(b, i, settings_fields(m));
    assert(settings_of_fields(settings_fields(m)) == m);
}

/// Optional settings: a tag byte, then the row if present.
pub open spec fn enc_opt_settings(o: Option<SettingsModel>) -> Seq<u8> {
    match o {
        None => seq![0u8],
        Some(m) => seq![1u8] + enc_settings(m),
    }
}

pub open spec fn p_opt_settings(b: Seq<u8>, i: int) -> Option<(Option<SettingsModel>, int)> {
    if 0 <= i && i < b.len() {
        if b[i] == 0 {
            Some((None, i + 1))
        } else if b[i] == 1 {
            match p_settings(b, i + 1) {
                Some((m, j)) => Some((Some(m), j)),
                None => None,
            }
        } else {
            None
        }
    } else {
        None
    }
}

pub open spec fn opt_settings_ok(o: Option<SettingsModel>) -> bool {
    match o {
        None => true,
        Some(m) => settings_ok(m),
    }
}

pub proof fn lemma_enc_opt_settings_at(b: Seq<u8>, i: int, o: Option<SettingsModel>)
    requires
        0 <= i,
        i + enc_opt_settings(o).len() <= b.len(),
        b.subrange(i, i + enc_opt_settings(o).len()) == enc_opt_settings(o),
        opt_settings_ok(o),
    ensures
        p_opt_settings(b, i) == Some((o, i + enc_opt_settings(o).len())),
{
    match o {
        None => {
            assert(b.subrange(i, i + 1)[0] == b[i]);
            assert(b[i] == 0);
        },
        Some(m) => {
            let e = enc_opt_settings(o);
            assert(b.subrange(i, i + e.len())[0] == b[i]);
            assert(b[i] == 1);
            lemma_segment(b, i, e, 1, enc_settings(m).len() as int);
            assert(e.subrange(1, 1 + enc_settings(m).len() as int) =~= enc_settings(m));
            lemma_enc_settings_at(b, i + 1, m);
        },
    }
}

/// One catalog row: identity, name, price, unit.
pub open spec fn enc_product(p: ProductModel) -> Seq<u8> {
    le64(p.id as u64) + enc_str(p.name) + le64(p.price) + enc_str(p.unit)
}

pub open spec fn product_ok(p: ProductModel) -> bool {
    str_ok(p.name) && str_ok(p.unit)
}

pub open spec fn p_product(b: Seq<u8>, i: int) -> Option<(ProductModel, int)> {
    match p_u64(b, i) {
        Some((idu, j1)) => match p_str(b, j1) {
            Some((name, j2)) => match p_u64(b, j2) {
                Some((price, j3)) => match p_str(b, j3) {
                    Some((unit, j4)) => Some(
                        (ProductModel { id: idu as i64, name: name, price: price, unit: unit }, j4),
                    ),
                    None => None,
                },
                None => None,
            },
            None => None,
        },
        None => None,
    }
}

pub proof fn lemma_enc_product_at(b: Seq<u8>, i: int, p: ProductModel)
    requires
        0 <= i,
        i + enc_product(p).len() <= b.len(),
        b.subrange(i, i + enc_product(p).len()) == enc_product(p),
        product_ok(p),
    ensures
        p_product(b, i) == Some((p, i + enc_product(p).len())),
{
    let e = enc_product(p);
    let e1 = le64(p.id as u64);
    let e2 = enc_str(p.name);
    let e3 = le64(p.price);
    let e4 = enc_str(p.unit);
    let o1 = i + 8;
    let o2 = o1 + e2.len() as int;
    let o3 = o2 + 8;
    lemma_segment(b, i, e, 0, 8);
    assert(e.subrange(0, 8) =~= e1);
    lemma_le64_at(b, i, p.id as u64);
    lemma_i64_roundtrip(p.id);
    lemma_segment(b, i, e, 8, e2.len() as int);
    assert(e.subrange(8, 8 + e2.len() as int) =~= e2);
    lemma_enc_str_at(b, o1, p.name);
    lemma_segment(b, i, e, 8 + e2.len() as int, 8);
    assert(e.subrange(8 + e2.len() as int, 16 + e2.len() as int) =~= e3);
    lemma_le64_at(b, o2, p.price);
    lemma_segment(b, i, e, 16 + e2.len() as int, e4.len() as int);
    assert(e.subrange(16 + e2.len() as int, 16 + e2.len() + e4.len() as int) =~= e4);
    lemma_enc_str_at(b, o3, p.unit);
}

/// One sale header: identity, total, currency, date, time.
pub open spec fn enc_sale(s: SaleRowModel) -> Seq<u8> {
    le64(s.id as u64) + le64(s.total_amount) + enc_str(s.currency) + le64(s.date) + le64(s.time)
}

pub open spec fn sale_ok(s: SaleRowModel) -> bool {
    str_ok(s.currency)
}

pub open spec fn p_sale(b: Seq<u8>, i: int) -> Option<(SaleRowModel, int)> {
    match p_u64(b, i) {
        Some((idu, j1)) => match p_u64(b, j1) {
            Some((total, j2)) => match p_str(b, j2) {
                Some((currency, j3)) => match p_u64(b, j3) {
                    Some((date, j4)) => match p_u64(b, j4) {
                        Some((time, j5)) => Some(
                            (
                                SaleRowModel {
                                    id: idu as i64,
                                    total_amount: total,
                                    currency: currency,
                                    date: date,
                                    time: time,
                                },
                                j5,
                            ),
                        ),
                        None => None,
                    },
                    None => None,
                },
                None => None,
            },
            None => None,
        },
        None => None,
    }
}

pub proof fn lemma_enc_sale_at(b: Seq<u8>, i: int, s: SaleRowModel)
    requires
        0 <= i,
        i + enc_sale(s).len() <= b.len(),
        b.subrange(i, i + enc_sale(s).len()) == enc_sale(s),
        sale_ok(s),
    ensures
        p_sale(b, i) == Some((s, i + enc_sale(s).len())),
{
    let e = enc_sale(s);
    let ec = enc_str(s.currency);
    let o1 = i + 8;
    let o2 = o1 + 8;
    let o3 = o2 + ec.len() as int;
    let o4 = o3 + 8;
    lemma_segment(b, i, e, 0, 8);
    assert(e.subrange(0, 8) =~= le64(s.id as u64));
    lemma_le64_at(b, i, s.id as u64);
    lemma_i64_roundtrip(s.id);
    lemma_segment(b, i, e, 8, 8);
    assert(e.subrange(8, 16) =~= le64(s.total_amount));
    lemma_le64_at(b, o1, s.total_amount);
    lemma_segment(b, i, e, 16, ec.len() as int);
    assert(e.subrange(16, 16 + ec.len() as int) =~= ec);
    lemma_enc_str_at(b, o2, s.currency);
    lemma_segment(b, i, e, 16 + ec.len() as int, 8);
    assert(e.subrange(16 + ec.len() as int, 24 + ec.len() as int) =~= le64(s.date));
    lemma_le64_at(b, o3, s.date);
    lemma_segment(b, i, e, 24 + ec.len() as int, 8);
    assert(e.subrange(24 + ec.len() as int, 32 + ec.len() as int) =~= le64(s.time));
    lemma_le64_at(b, o4, s.time);
}

/// One line item: sale identity, name, price, quantity, unit.
pub open spec fn enc_item(it: SaleItemRowModel) -> Seq<u8> {
    le64(it.sale_id as u64) + enc_str(it.name) + le64(it.price) + le64(it.quantity) + enc_str(
        it.unit,
    )
}

pub open spec fn item_ok(it: SaleItemRowModel) -> bool {
    str_ok(it.name) && str_ok(it.unit)
}

pub open spec fn p_item(b: Seq<u8>, i: int) -> Option<(SaleItemRowModel, int)> {
    match p_u64(b, i) {
        Some((idu, j1)) => match p_str(b, j1) {
            Some((name, j2)) => match p_u64(b, j2) {
                Some((price, j3)) => match p_u64(b, j3) {
                    Some((quantity, j4)) => match p_str(b, j4) {
                        Some((unit, j5)) => Some(
                            (
                                SaleItemRowModel {
                                    sale_id: idu as i64,
                                    name: name,
                                    price: price,
                                    quantity: quantity,
                                    unit: unit,
                                },
                                j5,
                            ),
                        ),
                        None => None,
                    },
                    None => None,
                },
                None => None,
            },
            None => None,
        },
        None => None,
    }
}

pub proof fn lemma_enc_item_at(b: Seq<u8>, i: int, it: SaleItemRowModel)
    requires
        0 <= i,
        i + enc_item(it).len() <= b.len(),
        b.subrange(i, i + enc_item(it).len()) == enc_item(it),
        item_ok(it),
    ensures
        p_item(b, i) == Some((it, i + enc_item(it).len())),
{
    let e = enc_item(it);
    let en = enc_str(it.name);
    let eu = enc_str(it.unit);
    let o1 = i + 8;
    let o2 = o1 + en.len() as int;
    let o3 = o2 + 8;
    let o4 = o3 + 8;
    lemma_segment(b, i, e, 0, 8);
    assert(e.subrange(0, 8) =~= le64(it.sale_id as u64));
    lemma_le64_at(b, i, it.sale_id as u64);
    lemma_i64_roundtrip(it.sale_id);
    lemma_segment(b, i, e, 8, en.len() as int);
    assert(e.subrange(8, 8 + en.len() as int) =~= en);
    lemma_enc_str_at(b, o1, it.name);
    lemma_segment(b, i, e, 8 + en.len() as int, 8);
    assert(e.subrange(8 + en.len() as int, 16 + en.len() as int) =~= le64(it.price));
    lemma_le64_at(b, o2, it.price);
    lemma_segment(b, i, e, 16 + en.len() as int, 8);
    assert(e.subrange(16 + en.len() as int, 24 + en.len() as int) =~= le64(it.quantity));
    lemma_le64_at(b, o3, it.quantity);
    lemma_segment(b, i, e, 24 + en.len() as int, eu.len() as int);
    assert(e.subrange(24 + en.len() as int, 24 + en.len() + eu.len() as int) =~= eu);
    lemma_enc_str_at(b, o4, it.unit);
}

// ---------------------------------------------------------------------------
// Lists.
// ---------------------------------------------------------------------------

pub open spec fn enc_products(ps: Seq<ProductModel>) -> Seq<u8>
    decreases ps.len(),
{
    if ps.len() == 0 {
        Seq::empty()
    } else {
        enc_product(ps[0]) + enc_products(ps.skip(1))
    }
}

pub open spec fn p_products(b: Seq<u8>, i: int, n: nat) -> Option<(Seq<ProductModel>, int)>
    decreases n,
{
    if n == 0 {
        Some((Seq::empty(), i))
    } else {
        match p_product(b, i) {
            Some((p, j)) => match p_products(b, j, (n - 1) as nat) {
                Some((ps, k)) => Some((seq![p] + ps, k)),
                None => None,
            },
            None => None,
        }
    }
}

pub proof fn lemma_enc_products_at(b: Seq<u8>, i: int, ps: Seq<ProductModel>)
    requires
        0 <= i,
        i + enc_products(ps).len() <= b.len(),
        b.subrange(i, i + enc_products(ps).len()) == enc_products(ps),
        forall|k: int| 0 <= k < ps.len() ==> product_ok(#[trigger] ps[k]),
    ensures
        p_products(b, i, ps.len()) == Some((ps, i + enc_products(ps).len())),
    decreases ps.len(),
{
    if ps.len() == 0 {
        assert(ps =~= Seq::<ProductModel>::empty());
    } else {
        let e0 = enc_product(ps[0]);
        let rest = enc_products(ps.skip(1));
        let e = enc_products(ps);
        lemma_segment(b, i, e, 0, e0.len() as int);
        assert(e.subrange(0, e0.len() as int) =~= e0);
        lemma_enc_product_at(b, i, ps[0]);
        lemma_segment(b, i, e, e0.len() as int, rest.len() as int);
        assert(e.subrange(e0.len() as int, e0.len() + rest.len() as int) =~= rest);
        assert(forall|k: int| 0 <= k < ps.skip(1).len() ==> product_ok(#[trigger] ps.skip(1)[k]));
        lemma_enc_products_at(b, i + e0.len() as int, ps.skip(1));
        assert(seq![ps[0]] + ps.skip(1) =~= ps);
    }
}

pub open spec fn enc_sales(ss: Seq<SaleRowModel>) -> Seq<u8>
    decreases ss.len(),
{
    if ss.len() == 0 {
        Seq::empty()
    } else {
        enc_sale(ss[0]) + enc_sales(ss.skip(1))
    }
}

pub open spec fn p_sales(b: Seq<u8>, i: int, n: nat) -> Option<(Seq<SaleRowModel>, int)>
    decreases n,
{
    if n == 0 {
        Some((Seq::empty(), i))
    } else {
        match p_sale(b, i) {
            Some((s, j)) => match p_sales(b, j, (n - 1) as nat) {
                Some((ss, k)) => Some((seq![s] + ss, k)),
                None => None,
            },
            None => None,
        }
    }
}

pub proof fn lemma_enc_sales_at(b: Seq<u8>, i: int, ss: Seq<SaleRowModel>)
    requires
        0 <= i,
        i + enc_sales(ss).len() <= b.len(),
        b.subrange(i, i + enc_sales(ss).len()) == enc_sales(ss),
        forall|k: int| 0 <= k < ss.len() ==> sale_ok(#[trigger] ss[k]),
    ensures
        p_sales(b, i, ss.len()) == Some((ss, i + enc_sales(ss).len())),
    decreases ss.len(),
{
    if ss.len() == 0 {
        assert(ss =~= Seq::<SaleRowModel>::empty());
    } else {
        let e0 = enc_sale(ss[0]);
        let rest = enc_sales(ss.skip(1));
        let e = enc_sales(ss);
        lemma_segment(b, i, e, 0, e0.len() as int);
        assert(e.subrange(0, e0.len() as int) =~= e0);
        lemma_enc_sale_at(b, i, ss[0]);
        lemma_segment(b, i, e, e0.len() as int, rest.len() as int);
        assert(e.subrange(e0.len() as int, e0.len() + rest.len() as int) =~= rest);
        assert(forall|k: int| 0 <= k < ss.skip(1).len() ==> sale_ok(#[trigger] ss.skip(1)[k]));
        lemma_enc_sales_at(b, i + e0.len() as int, ss.skip(1));
        assert(seq![ss[0]] + ss.skip(1) =~= ss);
    }
}

pub open spec fn enc_items(its: Seq<SaleItemRowModel>) -> Seq<u8>
    decreases its.len(),
{
    if its.len() == 0 {
        Seq::empty()
    } else {
        enc_item(its[0]) + enc_items(its.skip(1))
    }
}

pub open spec fn p_items(b: Seq<u8>, i: int, n: nat) -> Option<(Seq<SaleItemRowModel>, int)>
    decreases n,
{
    if n == 0 {
        Some((Seq::empty(), i))
    } else {
        match p_item(b, i) {
            Some((it, j)) => match p_items(b, j, (n - 1) as nat) {
                Some((its, k)) => Some((seq![it] + its, k)),
                None => None,
            },
            None => None,
        }
    }
}

pub proof fn lemma_enc_items_at(b: Seq<u8>, i: int, its: Seq<SaleItemRowModel>)
    requires
        0 <= i,
        i + enc_items(its).len() <= b.len(),
        b.subrange(i, i + enc_items(its).len()) == enc_items(its),
        forall|k: int| 0 <= k < its.len() ==> item_ok(#[trigger] its[k]),
    ensures
        p_items(b, i, its.len()) == Some((its, i + enc_items(its).len())),
    decreases its.len(),
{
    if its.len() == 0 {
        assert(its =~= Seq::<SaleItemRowModel>::empty());
    } else {
        let e0 = enc_item(its[0]);
        let rest = enc_items(its.skip(1));
        let e = enc_items(its);
        lemma_segment(b, i, e, 0, e0.len() as int);
        assert(e.subrange(0, e0.len() as int) =~= e0);
        lemma_enc_item_at(b, i, its[0]);
        lemma_segment(b, i, e, e0.len() as int, rest.len() as int);
        assert(e.subrange(e0.len() as int, e0.len() + rest.len() as int) =~= rest);
        assert(forall|k: int| 0 <= k < its.skip(1).len() ==> item_ok(#[trigger] its.skip(1)[k]));
        lemma_enc_items_at(b, i + e0.len() as int, its.skip(1));
        assert(seq![its[0]] + its.skip(1) =~= its);
    }
}

// ---------------------------------------------------------------------------
// The whole snapshot.
// ---------------------------------------------------------------------------

/// The catalog section: counted products, then the identity counter.
pub open spec fn enc_catalog(ps: Seq<ProductModel>, next: i64) -> Seq<u8> {
    le64(ps.len() as u64) + enc_products(ps) + le64(next as u64)
}

pub open spec fn p_catalog(b: Seq<u8>, i: int) -> Option<((Seq<ProductModel>, i64), int)> {
    match p_u64(b, i) {
        Some((pn, j1)) => match p_products(b, j1, pn as nat) {
            Some((ps, j2)) => match p_u64(b, j2) {
                Some((np, j3)) => Some(((ps, np as i64), j3)),
                None => None,
            },
            None => None,
        },
        None => None,
    }
}

pub proof fn lemma_enc_catalog_at(b: Seq<u8>, i: int, ps: Seq<ProductModel>, next: i64)
    requires
        0 <= i,
        i + enc_catalog(ps, next).len() <= b.len(),
        b.subrange(i, i + enc_catalog(ps, next).len()) == enc_catalog(ps, next),
        ps.len() <= u64::MAX,
        forall|k: int| 0 <= k < ps.len() ==> product_ok(#[trigger] ps[k]),
    ensures
        p_catalog(b, i) == Some(((ps, next), i + enc_catalog(ps, next).len())),
{
    let e = enc_catalog(ps, next);
    let e2 = enc_products(ps);
    let o1 = i + 8;
    let o2 = o1 + e2.len() as int;
    lemma_segment(b, i, e, 0, 8);
    assert(e.subrange(0, 8) =~= le64(ps.len() as u64));
    lemma_le64_at(b, i, ps.len() as u64);
    assert((ps.len() as u64) as nat == ps.len());
    lemma_segment(b, i, e, 8, e2.len() as int);
    assert(e.subrange(8, 8 + e2.len() as int) =~= e2);
    lemma_enc_products_at(b, o1, ps);
    lemma_segment(b, i, e, 8 + e2.len() as int, 8);
    assert(e.subrange(8 + e2.len() as int, 16 + e2.len() as int) =~= le64(next as u64));
    lemma_le64_at(b, o2, next as u64);
    lemma_i64_roundtrip(next);
}

/// The ledger section: counted sales, counted line items, the identity
/// counter.
pub open spec fn enc_ledger(ss: Seq<SaleRowModel>, its: Seq<SaleItemRowModel>, next: i64) -> Seq<
    u8,
> {
    le64(ss.len() as u64) + enc_sales(ss) + le64(its.len() as u64) + enc_items(its) + le64(
        next as u64,
    )
}

pub open spec fn p_ledger(b: Seq<u8>, i: int) -> Option<
    ((Seq<SaleRowModel>, Seq<SaleItemRowModel>, i64), int),
> {
    match p_u64(b, i) {
        Some((sn, j1)) => match p_sales(b, j1, sn as nat) {
            Some((ss, j2)) => match p_u64(b, j2) {
                Some((itn, j3)) => match p_items(b, j3, itn as nat) {
                    Some((its, j4)) => match p_u64(b, j4) {
                        Some((ns, j5)) => Some(((ss, its, ns as i64), j5)),
                        None => None,
                    },
                    None => None,
                },
                None => None,
            },
            None => None,
        },
        None => None,
    }
}

#[verifier::rlimit(100)]
pub proof fn lemma_enc_ledger_at(
    b: Seq<u8>,
    i: int,
    ss: Seq<SaleRowModel>,
    its: Seq<SaleItemRowModel>,
    next: i64,
)
    requires
        0 <= i,
        i + enc_ledger(ss, its, next).len() <= b.len(),
        b.subrange(i, i + enc_ledger(ss, its, next).len()) == enc_ledger(ss, its, next),
        ss.len() <= u64::MAX,
        its.len() <= u64::MAX,
        forall|k: int| 0 <= k < ss.len() ==> sale_ok(#[trigger] ss[k]),
        forall|k: int| 0 <= k < its.len() ==> item_ok(#[trigger] its[k]),
    ensures
        p_ledger(b, i) == Some(((ss, its, next), i + enc_ledger(ss, its, next).len())),
{
    let e = enc_ledger(ss, its, next);
    let e2 = enc_sales(ss);
    let e4 = enc_items(its);
    let o1 = i + 8;
    let o2 = o1 + e2.len() as int;
    let o3 = o2 + 8;
    let o4 = o3 + e4.len() as int;
    lemma_segment(b, i, e, 0, 8);
    assert(e.subrange(0, 8) =~= le64(ss.len() as u64));
    lemma_le64_at(b, i, ss.len() as u64);
    assert((ss.len() as u64) as nat == ss.len());
    lemma_segment(b, i, e, 8, e2.len() as int);
    assert(e.subrange(8, 8 + e2.len() as int) =~= e2);
    lemma_enc_sales_at(b, o1, ss);
    lemma_segment(b, i, e, 8 + e2.len() as int, 8);
    assert(e.subrange(8 + e2.len() as int, 16 + e2.len() as int) =~= le64(its.len() as u64));
    lemma_le64_at(b, o2, its.len() as u64);
    assert((its.len() as u64) as nat == its.len());
    lemma_segment(b, i, e, 16 + e2.len() as int, e4.len() as int);
    assert(e.subrange(16 + e2.len() as int, 16 + e2.len() + e4.len() as int) =~= e4);
    lemma_enc_items_at(b, o3, its);
    lemma_segment(b, i, e, 16 + e2.len() + e4.len() as int, 8);
    assert(e.subrange(16 + e2.len() + e4.len() as int, 24 + e2.len() + e4.len() as int) =~= le64(
        next as u64,
    ));
    lemma_le64_at(b, o4, next as u64);
    lemma_i64_roundtrip(next);
}

/// The byte image of a whole store.
pub open spec fn snapshot_bytes(m: StoreModel) -> Seq<u8> {
    enc_opt_settings(m.settings) + enc_catalog(m.products, m.next_product_id) + enc_ledger(
        m.sales,
        m.sale_items,
        m.next_sale_id,
    )
}

/// Every piece of the store fits its length prefix.
pub open spec fn snapshot_bounded(m: StoreModel) -> bool {
    &&& opt_settings_ok(m.settings)
    &&& m.products.len() <= u64::MAX
    &&& forall|k: int| 0 <= k < m.products.len() ==> product_ok(#[trigger] m.products[k])
    &&& m.sales.len() <= u64::MAX
    &&& forall|k: int| 0 <= k < m.sales.len() ==> sale_ok(#[trigger] m.sales[k])
    &&& m.sale_items.len() <= u64::MAX
    &&& forall|k: int| 0 <= k < m.sale_items.len() ==> item_ok(#[trigger] m.sale_items[k])
}

/// Parse a whole store at a position.
pub open spec fn p_store_at(b: Seq<u8>, i: int) -> Option<(StoreModel, int)> {
    match p_opt_settings(b, i) {
        Some((settings, j1)) => match p_catalog(b, j1) {
            Some((cat, j2)) => match p_ledger(b, j2) {
                Some((led, j3)) => Some(
                    (
                        StoreModel {
                            settings: settings,
                            products: cat.0,
                            next_product_id: cat.1,
                            sales: led.0,
                            sale_items: led.1,
                            next_sale_id: led.2,
                        },
                        j3,
                    ),
                ),
                None => None,
            },
            None => None,
        },
        None => None,
    }
}

/// Parse a whole snapshot: a store image with nothing following it.
pub open spec fn parse_snapshot(b: Seq<u8>) -> Option<StoreModel> {
    match p_store_at(b, 0) {
        Some((m, j)) => if j == b.len() {
            Some(m)
        } else {
            None
        },
        None => None,
    }
}

/// The parser inverts the encoder on every bounded store image.
#[verifier::rlimit(100)]
pub proof fn lemma_snapshot_roundtrip(m: StoreModel)
    requires
        snapshot_bounded(m),
    ensures
        parse_snapshot(snapshot_bytes(m)) == Some(m),
{
    let b = snapshot_bytes(m);
    let e1 = enc_opt_settings(m.settings);
    let e2 = enc_catalog(m.products, m.next_product_id);
    let e3 = enc_ledger(m.sales, m.sale_items, m.next_sale_id);
    let o1 = e1.len() as int;
    let o2 = o1 + e2.len() as int;
    let o3 = o2 + e3.len() as int;
    assert(b.len() == o3);
    assert(b.subrange(0, b.len() as int) == b);
    lemma_segment(b, 0, b, 0, o1);
    assert(b.subrange(0, o1) =~= e1);
    lemma_enc_opt_settings_at(b, 0, m.settings);
    lemma_segment(b, 0, b, o1, e2.len() as int);
    assert(b.subrange(o1, o2) =~= e2);
    lemma_enc_catalog_at(b, o1, m.products, m.next_product_id);
    lemma_segment(b, 0, b, o2, e3.len() as int);
    assert(b.subrange(o2, o3) =~= e3);
    lemma_enc_ledger_at(b, o2, m.sales, m.sale_items, m.next_sale_id);
}

/// A parsed list has exactly the requested count of entries.
pub proof fn lemma_p_opt_strs_len(b: Seq<u8>, i: int, n: nat)
    ensures
        p_opt_strs(b, i, n) matches Some(p) ==> p.0.len() == n,
    decreases n,
{
    if n > 0 {
        match p_opt_str(b, i) {
            Some(p) => {
                lemma_p_opt_strs_len(b, p.1, (n - 1) as nat);
            },
            None => {},
        }
    }
}

pub proof fn lemma_enc_opt_strs_at(b: Seq<u8>, i: int, l: Seq<Option<Seq<char>>>)
    requires
        0 <= i,
        i + enc_opt_strs(l).len() <= b.len(),
        b.subrange(i, i + enc_opt_strs(l).len()) == enc_opt_strs(l),
        forall|k: int| 0 <= k < l.len() ==> opt_str_ok(#[trigger] l[k]),
    ensures
        p_opt_strs(b, i, l.len()) == Some((l, i + enc_opt_strs(l).len())),
    decreases l.len(),
{
    if l.len() == 0 {
        assert(p_opt_strs(b, i, 0) == Some((Seq::<Option<Seq<char>>>::empty(), i)));
        assert(l =~= Seq::<Option<Seq<char>>>::empty());
    } else {
        let e0 = enc_opt_str(l[0]);
        let rest = enc_opt_strs(l.skip(1));
        let e = enc_opt_strs(l);
        lemma_segment(b, i, e, 0, e0.len() as int);
        assert(e.subrange(0, e0.len() as int) =~= e0);
        assert(b.subrange(i, i + e0.len() as int) =~= e0);
        lemma_enc_opt_str_at(b, i, l[0]);
        lemma_segment(b, i, e, e0.len() as int, rest.len() as int);
        assert(e.subrange(e0.len() as int, e0.len() + rest.len() as int) =~= rest);
        assert(b.subrange(i + e0.len(), i + e0.len() + rest.len()) =~= rest);
        assert(forall|k: int| 0 <= k < l.skip(1).len() ==> opt_str_ok(#[trigger] l.skip(1)[k]));
        lemma_enc_opt_strs_at(b, i + e0.len(), l.skip(1));
        assert(seq![l[0]] + l.skip(1) =~= l);
    }
}

// ---------------------------------------------------------------------------
// Executable writers. Each appends exactly the encoding of its value.
// ---------------------------------------------------------------------------

pub(crate) fn w_u64(out: &mut Vec<u8>, v: u64)
    ensures
        final(out)@ == old(out)@ + le64(v),
{
    out.push((v & 0xff) as u8);
    out.push(((v >> 8) & 0xff) as u8);
    out.push(((v >> 16) & 0xff) as u8);
    out.push(((v >> 24) & 0xff) as u8);
    out.push(((v >> 32) & 0xff) as u8);
    out.push(((v >> 40) & 0xff) as u8);
    out.push(((v >> 48) & 0xff) as u8);
    out.push(((v >> 56) & 0xff) as u8);
    proof {
        assert(out@ =~= old(out)@ + le64(v));
    }
}

pub(crate) fn w_str(out: &mut Vec<u8>, s: &String)
    ensures
        final(out)@ == old(out)@ + enc_str(s@),
        str_ok(s@),
{
    let bytes = vstd::slice::slice_to_vec(s.as_str().as_bytes());
    let n = bytes.len();
    w_u64(out, n as u64);
    let ghost mid = out@;
    let mut k: usize = 0;
    while k < n
        invariant
            n == bytes@.len(),
            bytes@ == encode_utf8(s@),
            k <= n,
            out@ == mid + bytes@.take(k as int),
        decreases n - k,
    {
        out.push(bytes[k]);
        proof {
            assert(bytes@.take(k + 1) =~= bytes@.take(k as int).push(bytes@[k as int]));
        }
        k = k + 1;
    }
    proof {
        assert(bytes@.take(n as int) =~= bytes@);
        assert(out@ =~= old(out)@ + enc_str(s@));
    }
}

pub(crate) fn w_opt_str(out: &mut Vec<u8>, o: &Option<String>)
    ensures
        final(out)@ == old(out)@ + enc_opt_str(o.deep_view()),
        opt_str_ok(o.deep_view()),
{
    match o {
        None => {
            out.push(0u8);
            proof {
                assert(out@ =~= old(out)@ + enc_opt_str(o.deep_view()));
            }
        },
        Some(s) => {
            out.push(1u8);
            w_str(out, s);
            proof {
                assert(out@ =~= old(out)@ + enc_opt_str(o.deep_view()));
            }
        },
    }
}

fn settings_to_fields(s: &crate::data::Settings) -> (v: Vec<Option<String>>)
    ensures
        v.deep_view() == settings_fields(s.deep_view()),
{
    let mut v: Vec<Option<String>> = Vec::new();
    v.push(crate::data::clone_opt_string(&s.restaurant_name));
    v.push(crate::data::clone_opt_string(&s.address));
    v.push(crate::data::clone_opt_string(&s.phone));
    v.push(crate::data::clone_opt_string(&s.email));
    v.push(crate::data::clone_opt_string(&s.tax_rate));
    v.push(crate::data::clone_opt_string(&s.currency));
    v.push(crate::data::clone_opt_string(&s.opening_time));
    v.push(crate::data::clone_opt_string(&s.closing_time));
    v.push(crate::data::clone_opt_string(&s.receipt_footer));
    v.push(crate::data::clone_opt_string(&s.logo));
    proof {
        assert(v.deep_view() =~= settings_fields(s.deep_view()));
    }
    v
}

fn w_opt_strs(out: &mut Vec<u8>, v: &Vec<Option<String>>, i: usize)
    requires
        i <= v@.len(),
    ensures
        final(out)@ == old(out)@ + enc_opt_strs(v.deep_view().skip(i as int)),
        forall|k: int| i <= k < v.deep_view().len() ==> opt_str_ok(#[trigger] v.deep_view()[k]),
    decreases v@.len() - i,
{
    if i == v.len() {
        proof {
            assert(v.deep_view().skip(i as int) =~= Seq::<Option<Seq<char>>>::empty());
            assert(out@ =~= old(out)@ + enc_opt_strs(v.deep_view().skip(i as int)));
        }
    } else {
        w_opt_str(out, &v[i]);
        w_opt_strs(out, v, i + 1);
        proof {
            let dv = v.deep_view();
            assert(dv.skip(i as int)[0] == dv[i as int]);
            assert(dv.skip(i as int).skip(1) =~= dv.skip(i + 1));
            assert(out@ =~= old(out)@ + enc_opt_strs(dv.skip(i as int)));
        }
    }
}

pub(crate) fn w_settings(out: &mut Vec<u8>, s: &crate::data::Settings)
    ensures
        final(out)@ == old(out)@ + enc_settings(s.deep_view()),
        settings_ok(s.deep_view()),
{
    let fields = settings_to_fields(s);
    w_opt_strs(out, &fields, 0);
    proof {
        assert(fields.deep_view().skip(0) =~= settings_fields(s.deep_view()));
    }
}

pub(crate) fn w_opt_settings(out: &mut Vec<u8>, o: &Option<crate::data::Settings>)
    ensures
        final(out)@ == old(out)@ + enc_opt_settings(o.deep_view()),
        opt_settings_ok(o.deep_view()),
{
    match o {
        None => {
            out.push(0u8);
            proof {
                assert(out@ =~= old(out)@ + enc_opt_settings(o.deep_view()));
            }
        },
        Some(s) => {
            out.push(1u8);
            w_settings(out, s);
            proof {
                assert(out@ =~= old(out)@ + enc_opt_settings(o.deep_view()));
            }
        },
    }
}

pub(crate) fn w_product(out: &mut Vec<u8>, p: &crate::data::Product)
    ensures
        final(out)@ == old(out)@ + enc_product(p.deep_view()),
        product_ok(p.deep_view()),
{
    w_u64(out, p.id as u64);
    w_str(out, &p.name);
    w_u64(out, p.price);
    w_str(out, &p.unit);
    proof {
        assert(out@ =~= old(out)@ + enc_product(p.deep_view()));
    }
}

pub(crate) fn w_products(out: &mut Vec<u8>, v: &Vec<crate::data::Product>, i: usize)
    requires
        i <= v@.len(),
    ensures
        final(out)@ == old(out)@ + enc_products(v.deep_view().skip(i as int)),
        forall|k: int| i <= k < v.deep_view().len() ==> product_ok(#[trigger] v.deep_view()[k]),
    decreases v@.len() - i,
{
    if i == v.len() {
        proof {
            assert(v.deep_view().skip(i as int) =~= Seq::<ProductModel>::empty());
            assert(out@ =~= old(out)@ + enc_products(v.deep_view().skip(i as int)));
        }
    } else {
        w_product(out, &v[i]);
        w_products(out, v, i + 1);
        proof {
            let dv = v.deep_view();
            assert(dv.skip(i as int)[0] == dv[i as int]);
            assert(dv.skip(i as int).skip(1) =~= dv.skip(i + 1));
            assert(out@ =~= old(out)@ + enc_products(dv.skip(i as int)));
        }
    }
}

pub(crate) fn w_sale(out: &mut Vec<u8>, s: &crate::data::SaleRow)
    ensures
        final(out)@ == old(out)@ + enc_sale(s.deep_view()),
        sale_ok(s.deep_view()),
{
    w_u64(out, s.id as u64);
    w_u64(out, s.total_amount);
    w_str(out, &s.currency);
    w_u64(out, s.date);
    w_u64(out, s.time);
    proof {
        assert(out@ =~= old(out)@ + enc_sale(s.deep_view()));
    }
}

pub(crate) fn w_sales(out: &mut Vec<u8>, v: &Vec<crate::data::SaleRow>, i: usize)
    requires
        i <= v@.len(),
    ensures
        final(out)@ == old(out)@ + enc_sales(v.deep_view().skip(i as int)),
        forall|k: int| i <= k < v.deep_view().len() ==> sale_ok(#[trigger] v.deep_view()[k]),
    decreases v@.len() - i,
{
    if i == v.len() {
        proof {
            assert(v.deep_view().skip(i as int) =~= Seq::<SaleRowModel>::empty());
            assert(out@ =~= old(out)@ + enc_sales(v.deep_view().skip(i as int)));
        }
    } else {
        w_sale(out, &v[i]);
        w_sales(out, v, i + 1);
        proof {
            let dv = v.deep_view();
            assert(dv.skip(i as int)[0] == dv[i as int]);
            assert(dv.skip(i as int).skip(1) =~= dv.skip(i + 1));
            assert(out@ =~= old(out)@ + enc_sales(dv.skip(i as int)));
        }
    }
}

pub(crate) fn w_item(out: &mut Vec<u8>, it: &crate::data::SaleItemRow)
    ensures
        final(out)@ == old(out)@ + enc_item(it.deep_view()),
        item_ok(it.deep_view()),
{
    w_u64(out, it.sale_id as u64);
    w_str(out, &it.name);
    w_u64(out, it.price);
    w_u64(out, it.quantity);
    w_str(out, &it.unit);
    proof {
        assert(out@ =~= old(out)@ + enc_item(it.deep_view()));
    }
}

pub(crate) fn w_items(out: &mut Vec<u8>, v: &Vec<crate::data::SaleItemRow>, i: usize)
    requires
        i <= v@.len(),
    ensures
        final(out)@ == old(out)@ + enc_items(v.deep_view().skip(i as int)),
        forall|k: int| i <= k < v.deep_view().len() ==> item_ok(#[trigger] v.deep_view()[k]),
    decreases v@.len() - i,
{
    if i == v.len() {
        proof {
            assert(v.deep_view().skip(i as int) =~= Seq::<SaleItemRowModel>::empty());
            assert(out@ =~= old(out)@ + enc_items(v.deep_view().skip(i as int)));
        }
    } else {
        w_item(out, &v[i]);
        w_items(out, v, i + 1);
        proof {
            let dv = v.deep_view();
            assert(dv.skip(i as int)[0] == dv[i as int]);
            assert(dv.skip(i as int).skip(1) =~= dv.skip(i + 1));
            assert(out@ =~= old(out)@ + enc_items(dv.skip(i as int)));
        }
    }
}

// ---------------------------------------------------------------------------
// Executable readers. Each agrees exactly with its parser.
// ---------------------------------------------------------------------------

/// Relies on `String::from_utf8`: it succeeds exactly on valid UTF-8 input,
/// and the returned string's bytes are the input bytes.
#[verifier::external_body]
fn string_from_utf8(v: Vec<u8>) -> (r: Option<String>)
    ensures
        r is Some <==> valid_utf8(v@),
        r matches Some(s) ==> encode_utf8(s@) == v@,
{
    String::from_utf8(v).ok()
}

pub(crate) fn r_u64(b: &Vec<u8>, i: usize) -> (r: Option<(u64, usize)>)
    ensures
        match p_u64(b@, i as int) {
            Some(p) => r matches Some(q) && q.0 == p.0 && q.1 as int == p.1,
            None => r is None,
        },
{
    if i > b.len() || b.len() - i < 8 {
        return None;
    }
    let v = (b[i] as u64) | ((b[i + 1] as u64) << 8) | ((b[i + 2] as u64) << 16) | ((b[i
        + 3] as u64) << 24) | ((b[i + 4] as u64) << 32) | ((b[i + 5] as u64) << 40) | ((b[i
        + 6] as u64) << 48) | ((b[i + 7] as u64) << 56);
    Some((v, i + 8))
}

pub(crate) fn r_str(b: &Vec<u8>, i: usize) -> (r: Option<(String, usize)>)
    ensures
        match p_str(b@, i as int) {
            Some(p) => r matches Some(q) && q.0@ == p.0 && q.1 as int == p.1,
            None => r is None,
        },
{
    let (n, j) = match r_u64(b, i) {
        Some(q) => q,
        None => {
            return None;
        },
    };
    let blen = b.len();
    if n > (blen - j) as u64 {
        return None;
    }
    let m = n as usize;
    let mut buf: Vec<u8> = Vec::new();
    let mut k: usize = 0;
    while k < m
        invariant
            blen == b@.len(),
            j + m <= blen,
            k <= m,
            buf@ == b@.subrange(j as int, j as int + k as int),
        decreases m - k,
    {
        buf.push(b[j + k]);
        proof {
            assert(b@.subrange(j as int, j as int + (k + 1) as int) =~= b@.subrange(
                j as int,
                j as int + k as int,
            ).push(b@[j as int + k as int]));
        }
        k = k + 1;
    }
    match string_from_utf8(buf) {
        Some(s) => {
            proof {
                encode_utf8_decode_utf8(s@);
            }
            Some((s, j + m))
        },
        None => None,
    }
}

pub(crate) fn r_opt_str(b: &Vec<u8>, i: usize) -> (r: Option<(Option<String>, usize)>)
    ensures
        match p_opt_str(b@, i as int) {
            Some(p) => r matches Some(q) && q.0.deep_view() == p.0 && q.1 as int == p.1,
            None => r is None,
        },
{
    if i >= b.len() {
        return None;
    }
    let tag = b[i];
    if tag == 0 {
        Some((None, i + 1))
    } else if tag == 1 {
        match r_str(b, i + 1) {
            Some((s, j)) => Some((Some(s), j)),
            None => None,
        }
    } else {
        None
    }
}

pub(crate) fn r_opt_strs(b: &Vec<u8>, i: usize, n: usize) -> (r: Option<
    (Vec<Option<String>>, usize),
>)
    ensures
        match p_opt_strs(b@, i as int, n as nat) {
            Some(p) => r matches Some(q) && q.0.deep_view() == p.0 && q.1 as int == p.1,
            None => r is None,
        },
    decreases n,
{
    if n == 0 {
        let empty: Vec<Option<String>> = Vec::new();
        proof {
            assert(empty.deep_view() =~= Seq::<Option<Seq<char>>>::empty());
        }
        Some((empty, i))
    } else {
        let (o, j) = match r_opt_str(b, i) {
            Some(q) => q,
            None => {
                return None;
            },
        };
        let (rest, k) = match r_opt_strs(b, j, n - 1) {
            Some(q) => q,
            None => {
                return None;
            },
        };
        let ghost o_dv = o.deep_view();
        let mut v: Vec<Option<String>> = Vec::new();
        v.push(o);
        let mut rest2 = rest;
        let ghost rest_dv = rest2.deep_view();
        v.append(&mut rest2);
        proof {
            assert(v.deep_view() =~= seq![o_dv] + rest_dv);
        }
        Some((v, k))
    }
}

pub(crate) fn r_settings(b: &Vec<u8>, i: usize) -> (r: Option<(crate::data::Settings, usize)>)
    ensures
        match p_settings(b@, i as int) {
            Some(p) => r matches Some(q) && q.0.deep_view() == p.0 && q.1 as int == p.1,
            None => r is None,
        },
{
    let (l, j) = match r_opt_strs(b, i, 10) {
        Some(q) => q,
        None => {
            return None;
        },
    };
    proof {
        lemma_p_opt_strs_len(b@, i as int, 10);
        assert(l.deep_view().len() == 10);
        assert(l@.len() == 10);
    }
    let s = crate::data::Settings {
        restaurant_name: crate::data::clone_opt_string(&l[0]),
        address: crate::data::clone_opt_string(&l[1]),
        phone: crate::data::clone_opt_string(&l[2]),
        email: crate::data::clone_opt_string(&l[3]),
        tax_rate: crate::data::clone_opt_string(&l[4]),
        currency: crate::data::clone_opt_string(&l[5]),
        opening_time: crate::data::clone_opt_string(&l[6]),
        closing_time: crate::data::clone_opt_string(&l[7]),
        receipt_footer: crate::data::clone_opt_string(&l[8]),
        logo: crate::data::clone_opt_string(&l[9]),
    };
    Some((s, j))
}

pub(crate) fn r_opt_settings(b: &Vec<u8>, i: usize) -> (r: Option<
    (Option<crate::data::Settings>, usize),
>)
    ensures
        match p_opt_settings(b@, i as int) {
            Some(p) => r matches Some(q) && q.0.deep_view() == p.0 && q.1 as int == p.1,
            None => r is None,
        },
{
    if i >= b.len() {
        return None;
    }
    let tag = b[i];
    if tag == 0 {
        Some((None, i + 1))
    } else if tag == 1 {
        match r_settings(b, i + 1) {
            Some((s, j)) => Some((Some(s), j)),
            None => None,
        }
    } else {
        None
    }
}

pub(crate) fn r_product(b: &Vec<u8>, i: usize) -> (r: Option<(crate::data::Product, usize)>)
    ensures
        match p_product(b@, i as int) {
            Some(p) => r matches Some(q) && q.0.deep_view() == p.0 && q.1 as int == p.1,
            None => r is None,
        },
{
    let (idu, j1) = match r_u64(b, i) {
        Some(q) => q,
        None => {
            return None;
        },
    };
    let (name, j2) = match r_str(b, j1) {
        Some(q) => q,
        None => {
            return None;
        },
    };
    let (price, j3) = match r_u64(b, j2) {
        Some(q) => q,
        None => {
            return None;
        },
    };
    let (unit, j4) = match r_str(b, j3) {
        Some(q) => q,
        None => {
            return None;
        },
    };
    Some(
        (
            crate::data::Product { id: idu as i64, name: name, price: price, unit: unit },
            j4,
        ),
    )
}

pub(crate) fn r_products(b: &Vec<u8>, i: usize, n: u64) -> (r: Option<
    (Vec<crate::data::Product>, usize),
>)
    ensures
        match p_products(b@, i as int, n as nat) {
            Some(p) => r matches Some(q) && q.0.deep_view() == p.0 && q.1 as int == p.1,
            None => r is None,
        },
    decreases n,
{
    if n == 0 {
        let empty: Vec<crate::data::Product> = Vec::new();
        proof {
            assert(empty.deep_view() =~= Seq::<ProductModel>::empty());
        }
        Some((empty, i))
    } else {
        let (p0, j) = match r_product(b, i) {
            Some(q) => q,
            None => {
                return None;
            },
        };
        let (rest, k) = match r_products(b, j, n - 1) {
            Some(q) => q,
            None => {
                return None;
            },
        };
        let ghost p_dv = p0.deep_view();
        let mut v: Vec<crate::data::Product> = Vec::new();
        v.push(p0);
        let mut rest2 = rest;
        let ghost rest_dv = rest2.deep_view();
        v.append(&mut rest2);
        proof {
            assert(v.deep_view() =~= seq![p_dv] + rest_dv);
        }
        Some((v, k))
    }
}

pub(crate) fn r_sale(b: &Vec<u8>, i: usize) -> (r: Option<(crate::data::SaleRow, usize)>)
    ensures
        match p_sale(b@, i as int) {
            Some(p) => r matches Some(q) && q.0.deep_view() == p.0 && q.1 as int == p.1,
            None => r is None,
        },
{
    let (idu, j1) = match r_u64(b, i) {
        Some(q) => q,
        None => {
            return None;
        },
    };
    let (total, j2) = match r_u64(b, j1) {
        Some(q) => q,
        None => {
            return None;
        },
    };
    let (currency, j3) = match r_str(b, j2) {
        Some(q) => q,
        None => {
            return None;
        },
    };
    let (date, j4) = match r_u64(b, j3) {
        Some(q) => q,
        None => {
            return None;
        },
    };
    let (time, j5) = match r_u64(b, j4) {
        Some(q) => q,
        None => {
            return None;
        },
    };
    Some(
        (
            crate::data::SaleRow {
                id: idu as i64,
                total_amount: total,
                currency: currency,
                date: date,
                time: time,
            },
            j5,
        ),
    )
}

pub(crate) fn r_sales(b: &Vec<u8>, i: usize, n: u64) -> (r: Option<
    (Vec<crate::data::SaleRow>, usize),
>)
    ensures
        match p_sales(b@, i as int, n as nat) {
            Some(p) => r matches Some(q) && q.0.deep_view() == p.0 && q.1 as int == p.1,
            None => r is None,
        },
    decreases n,
{
    if n == 0 {
        let empty: Vec<crate::data::SaleRow> = Vec::new();
        proof {
            assert(empty.deep_view() =~= Seq::<SaleRowModel>::empty());
        }
        Some((empty, i))
    } else {
        let (s0, j) = match r_sale(b, i) {
            Some(q) => q,
            None => {
                return None;
            },
        };
        let (rest, k) = match r_sales(b, j, n - 1) {
            Some(q) => q,
            None => {
                return None;
            },
        };
        let ghost s_dv = s0.deep_view();
        let mut v: Vec<crate::data::SaleRow> = Vec::new();
        v.push(s0);
        let mut rest2 = rest;
        let ghost rest_dv = rest2.deep_view();
        v.append(&mut rest2);
        proof {
            assert(v.deep_view() =~= seq![s_dv] + rest_dv);
        }
        Some((v, k))
    }
}

pub(crate) fn r_item(b: &Vec<u8>, i: usize) -> (r: Option<(crate::data::SaleItemRow, usize)>)
    ensures
        match p_item(b@, i as int) {
            Some(p) => r matches Some(q) && q.0.deep_view() == p.0 && q.1 as int == p.1,
            None => r is None,
        },
{
    let (idu, j1) = match r_u64(b, i) {
        Some(q) => q,
        None => {
            return None;
        },
    };
    let (name, j2) = match r_str(b, j1) {
        Some(q) => q,
        None => {
            return None;
        },
    };
    let (price, j3) = match r_u64(b, j2) {
        Some(q) => q,
        None => {
            return None;
        },
    };
    let (quantity, j4) = match r_u64(b, j3) {
        Some(q) => q,
        None => {
            return None;
        },
    };
    let (unit, j5) = match r_str(b, j4) {
        Some(q) => q,
        None => {
            return None;
        },
    };
    Some(
        (
            crate::data::SaleItemRow {
                sale_id: idu as i64,
                name: name,
                price: price,
                quantity: quantity,
                unit: unit,
            },
            j5,
        ),
    )
}

pub(crate) fn r_items(b: &Vec<u8>, i: usize, n: u64) -> (r: Option<
    (Vec<crate::data::SaleItemRow>, usize),
>)
    ensures
        match p_items(b@, i as int, n as nat) {
            Some(p) => r matches Some(q) && q.0.deep_view() == p.0 && q.1 as int == p.1,
            None => r is None,
        },
    decreases n,
{
    if n == 0 {
        let empty: Vec<crate::data::SaleItemRow> = Vec::new();
        proof {
            assert(empty.deep_view() =~= Seq::<SaleItemRowModel>::empty());
        }
        Some((empty, i))
    } else {
        let (it0, j) = match r_item(b, i) {
            Some(q) => q,
            None => {
                return None;
            },
        };
        let (rest, k) = match r_items(b, j, n - 1) {
            Some(q) => q,
            None => {
                return None;
            },
        };
        let ghost it_dv = it0.deep_view();
        let mut v: Vec<crate::data::SaleItemRow> = Vec::new();
        v.push(it0);
        let mut rest2 = rest;
        let ghost rest_dv = rest2.deep_view();
        v.append(&mut rest2);
        proof {
            assert(v.deep_view() =~= seq![it_dv] + rest_dv);
        }
        Some((v, k))
    }
}

/// Read back a whole store from a snapshot, exactly as the parser does.
pub(crate) fn r_store(b: &Vec<u8>) -> (r: Option<crate::store::Store>)
    ensures
        match parse_snapshot(b@) {
            Some(m) => r matches Some(st) && st.deep_view() == m,
            None => r is None,
        },
{
    let (settings, j1) = match r_opt_settings(b, 0) {
        Some(q) => q,
        None => {
            return None;
        },
    };
    let (pn, j2) = match r_u64(b, j1) {
        Some(q) => q,
        None => {
            return None;
        },
    };
    let (products, j3) = match r_products(b, j2, pn) {
        Some(q) => q,
        None => {
            return None;
        },
    };
    let (npid, j4) = match r_u64(b, j3) {
        Some(q) => q,
        None => {
            return None;
        },
    };
    let (sn, j5) = match r_u64(b, j4) {
        Some(q) => q,
        None => {
            return None;
        },
    };
    let (sales, j6) = match r_sales(b, j5, sn) {
        Some(q) => q,
        None => {
            return None;
        },
    };
    let (itn, j7) = match r_u64(b, j6) {
        Some(q) => q,
        None => {
            return None;
        },
    };
    let (items, j8) = match r_items(b, j7, itn) {
        Some(q) => q,
        None => {
            return None;
        },
    };
    let (nsid, j9) = match r_u64(b, j8) {
        Some(q) => q,
        None => {
            return None;
        },
    };
    if j9 != b.len() {
        return None;
    }
    Some(
        crate::store::Store {
            settings: settings,
            products: products,
            next_product_id: npid as i64,
            sales: sales,
            sale_items: items,
            next_sale_id: nsid as i64,
        },
    )
}

} // verus!
