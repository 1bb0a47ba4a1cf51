//! The algebraic laws of the mapping composition, stated over the table
//! views that the executable functions' contracts use.

use vstd::prelude::*;

use crate::model::chain_classes;
use crate::model::chain_pass1;
use crate::model::chain_pass2;
use crate::model::distinct_keys;
use crate::model::distinct_values;
use crate::model::has_key;
use crate::model::in_values;
use crate::model::invert_tbl;
use crate::model::lemma_chain_class_lookup;
use crate::model::lemma_chain_domain;
use crate::model::lemma_chain_remap_compose;
use crate::model::lemma_insert_distinct;
use crate::model::lemma_key_index;
use crate::model::lemma_sig_roundtrip;
use crate::model::lemma_take_sig;
use crate::model::lookup;
use crate::model::remap_class_v;
use crate::model::remap_field_key_v;
use crate::model::remap_field_total_v;
use crate::model::remap_method_key_v;
use crate::model::remap_method_total_v;
use crate::model::remap_params_v;
use crate::model::remap_sig_desc_v;
use crate::model::remap_type_v;
use crate::model::take_sig;
use crate::model::valid_array_desc;
use crate::model::valid_ref_desc;
use crate::model::ClassesV;
use crate::model::FieldKeyV;
use crate::model::FieldsV;
use crate::model::MethodKeyV;
use crate::model::MethodsV;

verus! {

/// Identity remap: under an empty class table, and with no stored entry
/// for the key, every remap returns its argument unchanged — classes,
/// types, signatures, fields and methods alike.
pub proof fn lemma_identity_remap(
    f: FieldsV,
    m: MethodsV,
    ck: Seq<char>,
    t: Seq<char>,
    fk: FieldKeyV,
    mk: MethodKeyV,
)
    requires
        !has_key(f, fk),
        !has_key(m, mk),
    ensures
        remap_class_v(Seq::<(Seq<char>, Seq<char>)>::empty(), ck) == ck,
        remap_type_v(Seq::<(Seq<char>, Seq<char>)>::empty(), t) == t,
        remap_sig_desc_v(Seq::<(Seq<char>, Seq<char>)>::empty(), mk.2) == mk.2,
        remap_field_total_v(Seq::<(Seq<char>, Seq<char>)>::empty(), f, fk) == fk,
        remap_method_total_v(Seq::<(Seq<char>, Seq<char>)>::empty(), m, mk) == mk,
{
    let c = Seq::<(Seq<char>, Seq<char>)>::empty();
    lemma_identity_remap_type(c, ck);
    lemma_identity_remap_type(c, t);
    lemma_identity_remap_sig(c, mk.2);
}

/// A key absent from the class table keeps its name.
pub proof fn lemma_identity_remap_class(c: ClassesV, ck: Seq<char>)
    requires
        !has_key(c, ck),
    ensures
        remap_class_v(c, ck) == ck,
{
}

/// Under an empty class table every type descriptor is untouched.
proof fn lemma_identity_remap_type(c: ClassesV, t: Seq<char>)
    requires
        c.len() == 0,
    ensures
        remap_type_v(c, t) == t,
{
    lemma_key_index(c, t);
    if valid_ref_desc(t) {
    } else if valid_array_desc(t) {
        let d = crate::model::leading_brackets(t);
        crate::model::lemma_leading_brackets(t);
        let elem = t.skip(d);
        if valid_ref_desc(elem) {
            lemma_key_index(c, elem);
            crate::types::lemma_brackets(d);
            assert(crate::model::brackets(d) + elem =~= t);
        }
    }
}

/// Under an empty class table every signature descriptor is untouched.
proof fn lemma_identity_remap_sig(c: ClassesV, sd: Seq<char>)
    requires
        c.len() == 0,
    ensures
        remap_sig_desc_v(c, sd) == sd,
{
    if take_sig(sd, 0) is Some {
        let ps = take_sig(sd, 0)->Some_0.0;
        let ret = take_sig(sd, 0)->Some_0.1;
        let e = take_sig(sd, 0)->Some_0.2;
        lemma_take_sig(sd, 0);
        if e == sd.len() {
            assert(remap_params_v(c, ps) =~= ps) by {
                assert forall|i: int| 0 <= i < ps.len() implies remap_params_v(c, ps)[i]
                    == ps[i] by {
                    lemma_identity_remap_type(c, ps[i]);
                }
            }
            lemma_identity_remap_type(c, ret);
            assert(sd.subrange(0, e) =~= sd);
        }
    }
}

/// Inversion is involutive: inverting a table whose keys and values are
/// both free of duplicates twice gives the table back.  A snapshot also
/// swaps its primary and inverse tables in constant time, so inverting
/// it twice restores the original tables exactly, whatever they hold.
pub proof fn lemma_inversion_involutive<KV, VV>(s: Seq<(KV, VV)>)
    requires
        distinct_keys(s),
        distinct_values(s),
    ensures
        invert_tbl(invert_tbl(s)) == s,
{
    crate::model::lemma_invert_involutive(s);
}

/// A string that can stand as one written token: nonempty, free of
/// whitespace, and free of the `.` and `;` separators.
pub open spec fn clean_token(n: Seq<char>) -> bool {
    &&& n.len() > 0
    &&& forall|i: int|
        0 <= i < n.len() ==> !crate::utils::is_space(#[trigger] n[i]) && n[i] != '.' && n[i] != ';'
}

/// Round trip of one written class entry: the compact line the writer
/// emits for a class pair, processed by the compact reader, adds exactly
/// that pair to the builder.
pub proof fn lemma_csrg_class_line_round_trip(
    st: crate::format::csrg::BuilderV,
    orig: Seq<char>,
    renamed: Seq<char>,
)
    requires
        clean_token(orig),
        clean_token(renamed),
        orig[0] != '#',
    ensures
        crate::format::csrg::csrg_line_v(st, orig + seq![' '] + renamed) == Some(
            (
                crate::model::tbl_insert(
                    st.0,
                    crate::model::ref_desc_of(orig),
                    crate::model::ref_desc_of(renamed),
                ),
                st.1,
                st.2,
            ),
        ),
{
    let s = orig + seq![' '] + renamed;
    let a = orig.len() as int;
    let n = s.len() as int;
    assert(s[a] == ' ');
    assert forall|i: int| 0 <= i < a implies s[i] == orig[i] by {}
    assert forall|i: int| a + 1 <= i < n implies s[i] == renamed[i - a - 1] by {}
    // the line starts at its first character
    assert(crate::utils::nonspace_at(s, 0) == 0) by {
        crate::utils::lemma_nonspace_at(s, 0);
        if crate::utils::nonspace_at(s, 0) > 0 {
            assert(crate::utils::is_space(s[0]));
        }
    }
    // exactly two tokens
    assert(crate::format::ws_tokens(s, 0, false) == 2) by {
        crate::format::lemma_ws_run(s, 0, a);
        assert(crate::format::ws_tokens(s, a, true) == crate::format::ws_tokens(s, a + 1, false));
        crate::format::lemma_ws_run(s, a + 1, n);
        assert(crate::format::ws_tokens(s, n, true) == 0);
    }
    // the first token ends at the separating space
    assert(crate::utils::token_end(s, 0) == a) by {
        crate::utils::lemma_token_end(s, 0);
        let t = crate::utils::token_end(s, 0);
        if t < a {
            assert(s[t] != ' ');
            assert(false);
        }
        if a < t {
            assert(s[a] != ' ');
            assert(false);
        }
    }
    // the second token runs to the end of the line
    assert(crate::utils::token_end(s, a + 1) == n) by {
        crate::utils::lemma_token_end(s, a + 1);
        let t = crate::utils::token_end(s, a + 1);
        if t < n {
            assert(s[t] == ' ');
            assert(crate::utils::is_space(s[t]));
            assert(false);
        }
    }
    assert(s.subrange(0, a) =~= orig);
    assert(s.subrange(a + 1, n) =~= renamed);
    assert(crate::format::name_ok(orig));
    assert(crate::format::name_ok(renamed));
    assert(crate::utils::nonspace_at(s, n) == n) by {
        crate::utils::lemma_nonspace_at(s, n);
    }
}
/// stage's originals together with the second stage's originals that are
/// not outputs of the first.
pub proof fn lemma_chain_domain_law(ac: ClassesV, bc: ClassesV, k: Seq<char>)
    requires
        distinct_keys(ac),
    ensures
        has_key(chain_classes(ac, invert_tbl(ac), bc), k) <==> (has_key(ac, k) || (has_key(bc, k)
            && !in_values(ac, k))),
{
    lemma_chain_domain(ac, bc, k);
}

/// Round trip of one written field entry: the compact three-token line
/// for a field, processed by the compact reader, adds exactly that
/// entry.
pub proof fn lemma_csrg_field_line_round_trip(
    st: crate::format::csrg::BuilderV,
    decl: Seq<char>,
    fname: Seq<char>,
    newname: Seq<char>,
)
    requires
        clean_token(decl),
        clean_token(fname),
        clean_token(newname),
        decl[0] != '#',
    ensures
        crate::format::csrg::csrg_line_v(
            st,
            decl + seq![' '] + fname + seq![' '] + newname,
        ) == Some(
            (
                st.0,
                crate::model::tbl_insert(st.1, (crate::model::ref_desc_of(decl), fname), newname),
                st.2,
            ),
        ),
{
    let s = decl + seq![' '] + fname + seq![' '] + newname;
    let a = decl.len() as int;
    let b = a + 1 + fname.len() as int;
    let n = s.len() as int;
    assert(s[a] == ' ');
    assert(s[b] == ' ');
    assert forall|i: int| 0 <= i < a implies s[i] == decl[i] by {}
    assert forall|i: int| a + 1 <= i < b implies s[i] == fname[i - a - 1] by {}
    assert forall|i: int| b + 1 <= i < n implies s[i] == newname[i - b - 1] by {}
    assert(crate::utils::nonspace_at(s, 0) == 0) by {
        crate::utils::lemma_nonspace_at(s, 0);
        if crate::utils::nonspace_at(s, 0) > 0 {
            assert(crate::utils::is_space(s[0]));
        }
    }
    assert(crate::format::ws_tokens(s, 0, false) == 3) by {
        crate::format::lemma_ws_run(s, 0, a);
        crate::format::lemma_ws_run(s, a + 1, b);
        crate::format::lemma_ws_run(s, b + 1, n);
        assert(crate::format::ws_tokens(s, n, true) == 0);
    }
    lemma_token_run(s, 0, a);
    lemma_token_run(s, a + 1, b);
    lemma_token_run(s, b + 1, n);
    assert(s.subrange(0, a) =~= decl);
    assert(s.subrange(a + 1, b) =~= fname);
    assert(s.subrange(b + 1, n) =~= newname);
    assert(crate::format::name_ok(decl));
    assert(crate::utils::nonspace_at(s, n) == n) by {
        crate::utils::lemma_nonspace_at(s, n);
    }
}

/// Round trip of one written method entry: the compact four-token line
/// for a method, processed by the compact reader, adds exactly that
/// entry, its signature re-parsed into the same parts.
pub proof fn lemma_csrg_method_line_round_trip(
    st: crate::format::csrg::BuilderV,
    decl: Seq<char>,
    mname: Seq<char>,
    ps: Seq<Seq<char>>,
    ret: Seq<char>,
    newname: Seq<char>,
)
    requires
        clean_token(decl),
        clean_token(mname),
        clean_token(newname),
        clean_token(crate::model::sig_render(ps, ret)),
        decl[0] != '#',
        forall|i: int| 0 <= i < ps.len() ==> crate::model::valid_type_desc(#[trigger] ps[i]),
        crate::model::valid_type_desc(ret),
    ensures
        crate::format::csrg::csrg_line_v(
            st,
            decl + seq![' '] + mname + seq![' '] + crate::model::sig_render(ps, ret) + seq![' ']
                + newname,
        ) == Some(
            (
                st.0,
                st.1,
                crate::model::tbl_insert(
                    st.2,
                    (crate::model::ref_desc_of(decl), mname, crate::model::sig_render(ps, ret)),
                    newname,
                ),
            ),
        ),
{
    let sig = crate::model::sig_render(ps, ret);
    let s = decl + seq![' '] + mname + seq![' '] + sig + seq![' '] + newname;
    let a = decl.len() as int;
    let b = a + 1 + mname.len() as int;
    let c = b + 1 + sig.len() as int;
    let n = s.len() as int;
    assert(s[a] == ' ');
    assert(s[b] == ' ');
    assert(s[c] == ' ');
    assert forall|i: int| 0 <= i < a implies s[i] == decl[i] by {}
    assert forall|i: int| a + 1 <= i < b implies s[i] == mname[i - a - 1] by {}
    assert forall|i: int| b + 1 <= i < c implies s[i] == sig[i - b - 1] by {}
    assert forall|i: int| c + 1 <= i < n implies s[i] == newname[i - c - 1] by {}
    assert(crate::utils::nonspace_at(s, 0) == 0) by {
        crate::utils::lemma_nonspace_at(s, 0);
        if crate::utils::nonspace_at(s, 0) > 0 {
            assert(crate::utils::is_space(s[0]));
        }
    }
    assert(crate::format::ws_tokens(s, 0, false) == 4) by {
        crate::format::lemma_ws_run(s, 0, a);
        crate::format::lemma_ws_run(s, a + 1, b);
        crate::format::lemma_ws_run(s, b + 1, c);
        crate::format::lemma_ws_run(s, c + 1, n);
        assert(crate::format::ws_tokens(s, n, true) == 0);
    }
    lemma_token_run(s, 0, a);
    lemma_token_run(s, a + 1, b);
    lemma_token_run(s, c + 1, n);
    assert(s.subrange(0, a) =~= decl);
    assert(s.subrange(a + 1, b) =~= mname);
    assert(s.subrange(c + 1, n) =~= newname);
    assert(crate::format::name_ok(decl));
    // the embedded signature re-parses into its own parts
    lemma_sig_roundtrip(ps, ret);
    let fl = ps.flatten();
    assert(take_sig(s, b + 1) == Some((ps, ret, c))) by {
        assert(sig == seq!['('] + fl + seq![')'] + ret);
        assert(s[b + 1] == sig[0]);
        assert(sig[0] == '(');
        assert(s.subrange(b + 2, b + 2 + fl.len()) =~= fl) by {
            assert forall|i: int| 0 <= i < fl.len() implies s[b + 2 + i] == fl[i] by {
                assert(s[b + 2 + i] == sig[1 + i]);
            }
        }
        assert(s[b + 2 + fl.len()] == sig[1 + fl.len() as int]);
        assert(sig[1 + fl.len() as int] == ')');
        crate::model::lemma_take_params_render(s, b + 2, ps);
        let e0 = b + 2 + fl.len() as int + 1;
        assert(s.subrange(e0, e0 + ret.len()) =~= ret) by {
            assert forall|i: int| 0 <= i < ret.len() implies s[e0 + i] == ret[i] by {
                assert(s[e0 + i] == sig[2 + fl.len() as int + i]);
            }
        }
        crate::model::lemma_take_type_prefix(s, e0, ret);
        assert(s.subrange(e0, e0 + ret.len()) == ret);
        assert(e0 + ret.len() == c);
    }
    assert(crate::utils::nonspace_at(s, n) == n) by {
        crate::utils::lemma_nonspace_at(s, n);
    }
}

/// A clean token laid out before a space (or the line's end) scans as
/// one token.
proof fn lemma_token_run(s: Seq<char>, from: int, to: int)
    requires
        0 <= from <= to <= s.len(),
        forall|i: int| from <= i < to ==> !crate::utils::is_space(s[i]),
        to < s.len() ==> s[to] == ' ',
    ensures
        crate::utils::token_end(s, from) == to,
{
    crate::utils::lemma_token_end(s, from);
    let t = crate::utils::token_end(s, from);
    if t < to {
        assert(s[t] != ' ');
        assert(false);
    }
    if to < t {
        assert(s[to] != ' ');
        assert(false);
    }
}

/// The chain domain law for fields: a chained field table's key set is
/// the first stage's field originals together with the second stage's
/// net-new field originals, the latter rewritten to their oldest name
/// through the first stage's inverse class table.
pub proof fn lemma_chain_domain_law_fields(
    af: FieldsV,
    a_inv_f: FieldsV,
    a_inv_c: ClassesV,
    bc: ClassesV,
    bf: FieldsV,
    k: FieldKeyV,
)
    requires
        distinct_keys(af),
    ensures
        has_key(crate::model::chain_fields(af, a_inv_f, a_inv_c, bc, bf), k) <==> (has_key(af, k)
            || (exists|j: int|
            0 <= j < bf.len() && remap_field_key_v(a_inv_c, (#[trigger] bf[j]).0) == k && !has_key(
                a_inv_f,
                bf[j].0,
            ))),
{
    let norm = |k0: FieldKeyV| remap_field_key_v(a_inv_c, k0);
    crate::model::lemma_chain_pass1_keys_norm(a_inv_f, bf, norm, k);
    lemma_chain_pass2_lookup_keys(
        chain_pass1(a_inv_f, bf, norm),
        af,
        |v: FieldKeyV| remap_field_total_v(bc, bf, v),
        k,
    );
}

/// The chain domain law for methods.
pub proof fn lemma_chain_domain_law_methods(
    am: MethodsV,
    a_inv_m: MethodsV,
    a_inv_c: ClassesV,
    bc: ClassesV,
    bm: MethodsV,
    k: MethodKeyV,
)
    requires
        distinct_keys(am),
    ensures
        has_key(crate::model::chain_methods(am, a_inv_m, a_inv_c, bc, bm), k) <==> (has_key(am, k)
            || (exists|j: int|
            0 <= j < bm.len() && remap_method_key_v(a_inv_c, (#[trigger] bm[j]).0) == k
                && !has_key(a_inv_m, bm[j].0))),
{
    let norm = |k0: MethodKeyV| remap_method_key_v(a_inv_c, k0);
    crate::model::lemma_chain_pass1_keys_norm(a_inv_m, bm, norm, k);
    lemma_chain_pass2_lookup_keys(
        chain_pass1(a_inv_m, bm, norm),
        am,
        |v: MethodKeyV| remap_method_total_v(bc, bm, v),
        k,
    );
}

/// The second pass's key set: the accumulator's keys plus the first
/// stage's keys.
proof fn lemma_chain_pass2_lookup_keys<KV, VV>(
    acc: Seq<(KV, VV)>,
    a: Seq<(KV, VV)>,
    push: spec_fn(VV) -> VV,
    k: KV,
)
    requires
        distinct_keys(a),
    ensures
        has_key(chain_pass2(acc, a, push), k) <==> (has_key(acc, k) || has_key(a, k)),
{
    crate::model::lemma_chain_pass2_lookup(acc, a, push, k);
}

/// Every first pass yields distinct keys, whatever it filters.
proof fn lemma_pass1_distinct<KV, VV>(
    a_inv: Seq<(KV, VV)>,
    b: Seq<(KV, VV)>,
    norm: spec_fn(KV) -> KV,
)
    ensures
        distinct_keys(chain_pass1(a_inv, b, norm)),
    decreases b.len(),
{
    if b.len() > 0 {
        lemma_pass1_distinct(a_inv, b.drop_last(), norm);
        if !has_key(a_inv, b.last().0) {
            lemma_insert_distinct(
                chain_pass1(a_inv, b.drop_last(), norm),
                norm(b.last().0),
                b.last().1,
            );
        }
    }
}

/// The second pass keeps keys distinct.
proof fn lemma_pass2_distinct<KV, VV>(
    acc: Seq<(KV, VV)>,
    a: Seq<(KV, VV)>,
    push: spec_fn(VV) -> VV,
)
    requires
        distinct_keys(acc),
    ensures
        distinct_keys(chain_pass2(acc, a, push)),
    decreases a.len(),
{
    if a.len() > 0 {
        lemma_pass2_distinct(acc, a.drop_last(), push);
        lemma_insert_distinct(
            chain_pass2(acc, a.drop_last(), push),
            a.last().0,
            push(a.last().1),
        );
    }
}

/// A chained class table has distinct keys.
pub proof fn lemma_chain_classes_distinct(ac: ClassesV, a_inv: ClassesV, bc: ClassesV)
    ensures
        distinct_keys(chain_classes(ac, a_inv, bc)),
{
    lemma_pass1_distinct(a_inv, bc, |k: Seq<char>| k);
    lemma_pass2_distinct(
        chain_pass1(a_inv, bc, |k: Seq<char>| k),
        ac,
        |v: Seq<char>| remap_class_v(bc, v),
    );
    assert(chain_classes(ac, a_inv, bc) == chain_pass2(
        chain_pass1(a_inv, bc, |k: Seq<char>| k),
        ac,
        |v: Seq<char>| remap_class_v(bc, v),
    ));
}

/// Associativity of effect: chaining three class tables either way gives
/// the same remapped class for every key of the first stage's originals,
/// provided no original of the third stage is a name the second stage
/// produces without also consuming it.  A name such as that is an
/// intermediate: querying it directly falls outside the law.
pub proof fn lemma_chain_associative_effect(
    ac: ClassesV,
    bc: ClassesV,
    cc: ClassesV,
    k: Seq<char>,
)
    requires
        distinct_keys(ac),
        distinct_keys(bc),
        distinct_keys(cc),
        forall|x: Seq<char>| has_key(cc, x) && in_values(bc, x) ==> has_key(bc, x),
        has_key(ac, k),
    ensures
        ({
            let ab = chain_classes(ac, invert_tbl(ac), bc);
            let bc2 = chain_classes(bc, invert_tbl(bc), cc);
            remap_class_v(chain_classes(ab, invert_tbl(ab), cc), k) == remap_class_v(
                chain_classes(ac, invert_tbl(ac), bc2),
                k,
            )
        }),
{
    let ab = chain_classes(ac, invert_tbl(ac), bc);
    let bc2 = chain_classes(bc, invert_tbl(bc), cc);
    lemma_chain_classes_distinct(ac, invert_tbl(ac), bc);
    lemma_chain_class_lookup(ac, invert_tbl(ac), bc, k);
    lemma_key_index(ac, k);
    let v = lookup(ac, k)->Some_0;
    lemma_chain_class_lookup(ab, invert_tbl(ab), cc, k);
    lemma_chain_class_lookup(ac, invert_tbl(ac), bc2, k);
    lemma_chain_remap_compose(bc, cc, v);
}

} // verus!
