//! The mathematical model: descriptor grammar and remapping semantics,
//! stated over sequences of characters.

use vstd::prelude::*;

verus! {

/// View of a class table: pairs of (original, renamed) class descriptors.
pub type ClassesV = Seq<(Seq<char>, Seq<char>)>;

/// `c` is one of the nine single-character primitive descriptor codes.
pub open spec fn prim_code(c: char) -> bool {
    c == 'B' || c == 'S' || c == 'I' || c == 'J' || c == 'F' || c == 'D' || c == 'C' || c == 'Z'
        || c == 'V'
}

/// A whole string is a primitive descriptor.
pub open spec fn valid_prim_desc(s: Seq<char>) -> bool {
    s.len() == 1 && prim_code(s[0])
}

/// A whole string is a reference-type descriptor: `L<name>;` where the
/// name contains neither `.` nor `;`.
pub open spec fn valid_ref_desc(s: Seq<char>) -> bool {
    &&& s.len() >= 2
    &&& s[0] == 'L'
    &&& s[s.len() - 1] == ';'
    &&& forall|i: int| 1 <= i < s.len() - 1 ==> s[i] != '.' && s[i] != ';'
}

/// Number of consecutive `[` characters at the front of `s`.
pub open spec fn leading_brackets(s: Seq<char>) -> int
    decreases s.len(),
{
    if s.len() > 0 && s[0] == '[' {
        1 + leading_brackets(s.drop_first())
    } else {
        0
    }
}

/// A sequence of `d` `[` characters.
pub open spec fn brackets(d: int) -> Seq<char>
    decreases d,
{
    if d <= 0 {
        Seq::<char>::empty()
    } else {
        seq!['['] + brackets(d - 1)
    }
}

/// A whole string is an array descriptor: one or more `[` followed by a
/// primitive or reference descriptor.
pub open spec fn valid_array_desc(s: Seq<char>) -> bool {
    let d = leading_brackets(s);
    let elem = s.skip(d);
    d >= 1 && (valid_prim_desc(elem) || valid_ref_desc(elem))
}

/// A whole string is a type descriptor of some kind.
pub open spec fn valid_type_desc(s: Seq<char>) -> bool {
    valid_prim_desc(s) || valid_ref_desc(s) || valid_array_desc(s)
}

/// The internal name packed inside a reference descriptor `L<name>;`.
pub open spec fn ref_internal_name(s: Seq<char>) -> Seq<char> {
    s.subrange(1, s.len() - 1)
}

/// The reference descriptor wrapping an internal name.
pub open spec fn ref_desc_of(name: Seq<char>) -> Seq<char> {
    seq!['L'] + name + seq![';']
}

/// Render a method-signature descriptor from parameter and return
/// descriptors: `(<p1><p2>...)<ret>`.
pub open spec fn sig_render(params: Seq<Seq<char>>, ret: Seq<char>) -> Seq<char> {
    seq!['('] + params.flatten() + seq![')'] + ret
}

/// First index `i >= from` holding `.` or `;`, the characters that end the
/// name part of a reference descriptor, or `s.len()` if none.
pub open spec fn find_ref_end(s: Seq<char>, from: int) -> int
    decreases s.len() - from,
{
    if from < 0 || from >= s.len() {
        s.len() as int
    } else if s[from] == '.' || s[from] == ';' {
        from
    } else {
        find_ref_end(s, from + 1)
    }
}

pub proof fn lemma_find_ref_end(s: Seq<char>, from: int)
    requires
        0 <= from <= s.len(),
    ensures
        from <= find_ref_end(s, from) <= s.len(),
        forall|i: int| from <= i < find_ref_end(s, from) ==> s[i] != '.' && s[i] != ';',
        find_ref_end(s, from) < s.len() ==> (s[find_ref_end(s, from)] == '.' || s[find_ref_end(
            s,
            from,
        )] == ';'),
    decreases s.len() - from,
{
    if from < s.len() && !(s[from] == '.' || s[from] == ';') {
        lemma_find_ref_end(s, from + 1);
    }
}

/// Any position with the first-stop characterization is `find_ref_end`.
pub proof fn lemma_find_ref_end_unique(s: Seq<char>, from: int, p: int)
    requires
        0 <= from <= p <= s.len(),
        forall|i: int| from <= i < p ==> s[i] != '.' && s[i] != ';',
        p < s.len() ==> (s[p] == '.' || s[p] == ';'),
    ensures
        p == find_ref_end(s, from),
{
    lemma_find_ref_end(s, from);
    let e = find_ref_end(s, from);
    if p < e {
        assert(s[p] != '.' && s[p] != ';');
    }
    if e < p {
        assert(s[e] != '.' && s[e] != ';');
    }
}

/// First index `i >= from` holding a character other than `[`.
pub open spec fn find_nonbracket(s: Seq<char>, from: int) -> int
    decreases s.len() - from,
{
    if from < 0 || from >= s.len() {
        s.len() as int
    } else if s[from] != '[' {
        from
    } else {
        find_nonbracket(s, from + 1)
    }
}

pub proof fn lemma_find_nonbracket(s: Seq<char>, from: int)
    requires
        0 <= from <= s.len(),
    ensures
        from <= find_nonbracket(s, from) <= s.len(),
        forall|i: int| from <= i < find_nonbracket(s, from) ==> s[i] == '[',
        find_nonbracket(s, from) < s.len() ==> s[find_nonbracket(s, from)] != '[',
    decreases s.len() - from,
{
    if from < s.len() && s[from] == '[' {
        lemma_find_nonbracket(s, from + 1);
    }
}

pub proof fn lemma_find_nonbracket_unique(s: Seq<char>, from: int, p: int)
    requires
        0 <= from <= p <= s.len(),
        forall|i: int| from <= i < p ==> s[i] == '[',
        p < s.len() ==> s[p] != '[',
    ensures
        p == find_nonbracket(s, from),
{
    lemma_find_nonbracket(s, from);
    let e = find_nonbracket(s, from);
    if p < e {
    }
    if e < p {
    }
}

/// `leading_brackets` carries the same first-stop characterization.
pub proof fn lemma_leading_brackets(s: Seq<char>)
    ensures
        0 <= leading_brackets(s) <= s.len(),
        forall|i: int| 0 <= i < leading_brackets(s) ==> s[i] == '[',
        leading_brackets(s) < s.len() ==> s[leading_brackets(s)] != '[',
    decreases s.len(),
{
    if s.len() > 0 && s[0] == '[' {
        lemma_leading_brackets(s.drop_first());
        assert forall|i: int| 0 <= i < leading_brackets(s) implies s[i] == '[' by {
            if i > 0 {
                assert(s.drop_first()[i - 1] == s[i]);
            }
        }
    }
}

pub proof fn lemma_leading_brackets_unique(s: Seq<char>, p: int)
    requires
        0 <= p <= s.len(),
        forall|i: int| 0 <= i < p ==> s[i] == '[',
        p < s.len() ==> s[p] != '[',
    ensures
        p == leading_brackets(s),
{
    lemma_leading_brackets(s);
}

/// End position of a single reference descriptor starting at `from`
/// (where `s[from]` is `L`), if the name part is properly closed by `;`.
pub open spec fn take_ref_end(s: Seq<char>, from: int) -> Option<int> {
    let e = find_ref_end(s, from + 1);
    if e < s.len() && s[e] == ';' {
        Some(e + 1)
    } else {
        None
    }
}

/// End position of a single array descriptor starting at `from`
/// (where `s[from]` is `[`).
pub open spec fn take_array_end(s: Seq<char>, from: int) -> Option<int> {
    let d = find_nonbracket(s, from);
    if d >= s.len() {
        None
    } else if prim_code(s[d]) {
        Some(d + 1)
    } else if s[d] == 'L' {
        take_ref_end(s, d)
    } else {
        None
    }
}

/// End position of a single type descriptor starting at `from`, or `None`
/// when no descriptor starts there.
pub open spec fn take_type_end(s: Seq<char>, from: int) -> Option<int> {
    if from < 0 || from >= s.len() {
        None
    } else if prim_code(s[from]) {
        Some(from + 1)
    } else if s[from] == 'L' {
        take_ref_end(s, from)
    } else if s[from] == '[' {
        take_array_end(s, from)
    } else {
        None
    }
}

pub proof fn lemma_take_type_end_bounds(s: Seq<char>, from: int)
    requires
        0 <= from <= s.len(),
    ensures
        take_type_end(s, from) matches Some(e) ==> from < e <= s.len(),
{
    if 0 <= from < s.len() {
        lemma_find_ref_end(s, from + 1);
        let d = find_nonbracket(s, from);
        lemma_find_nonbracket(s, from);
        if d < s.len() {
            lemma_find_ref_end(s, d + 1);
        }
    }
}

/// A successfully taken descriptor is a valid descriptor of its kind.
pub proof fn lemma_take_type_valid(s: Seq<char>, from: int)
    requires
        0 <= from <= s.len(),
    ensures
        take_type_end(s, from) matches Some(e) ==> valid_type_desc(s.subrange(from, e)),
{
    lemma_take_type_end_bounds(s, from);
    if take_type_end(s, from) is Some {
        let e = take_type_end(s, from)->Some_0;
        let sub = s.subrange(from, e);
        if prim_code(s[from]) {
            assert(valid_prim_desc(sub));
        } else if s[from] == 'L' {
            lemma_find_ref_end(s, from + 1);
            let e0 = find_ref_end(s, from + 1);
            assert(sub[0] == 'L');
            assert(sub[sub.len() - 1] == s[e0]);
            assert forall|i: int| 1 <= i < sub.len() - 1 implies sub[i] != '.' && sub[i] != ';' by {
                assert(sub[i] == s[from + i]);
            }
            assert(valid_ref_desc(sub));
        } else {
            let d = find_nonbracket(s, from);
            lemma_find_nonbracket(s, from);
            // the element begins where the brackets end
            assert(d < s.len());
            let dd = d - from;
            assert forall|i: int| 0 <= i < dd implies sub[i] == '[' by {
                assert(sub[i] == s[from + i]);
            }
            if prim_code(s[d]) {
                assert(sub[dd] != '[');
                lemma_leading_brackets_unique(sub, dd);
                assert(sub.skip(dd) =~= s.subrange(d, e));
                assert(valid_prim_desc(sub.skip(dd)));
                assert(valid_array_desc(sub));
            } else {
                assert(s[d] == 'L');
                assert(sub[dd] != '[');
                lemma_leading_brackets_unique(sub, dd);
                let elem = sub.skip(dd);
                assert(elem =~= s.subrange(d, e));
                lemma_find_ref_end(s, d + 1);
                let e0 = find_ref_end(s, d + 1);
                assert(elem[0] == 'L');
                assert(elem[elem.len() - 1] == s[e0]);
                assert forall|i: int| 1 <= i < elem.len() - 1 implies elem[i] != '.' && elem[i]
                    != ';' by {
                    assert(elem[i] == s[d + i]);
                }
                assert(valid_ref_desc(elem));
                assert(valid_array_desc(sub));
            }
        }
    }
}


/// Conversely, a whole valid descriptor is taken completely.
pub proof fn lemma_valid_take_type(s: Seq<char>)
    requires
        valid_type_desc(s),
    ensures
        take_type_end(s, 0) == Some(s.len() as int),
{
    if valid_prim_desc(s) {
    } else if valid_ref_desc(s) {
        lemma_find_ref_end_unique(s, 1, s.len() - 1);
    } else {
        let d = leading_brackets(s);
        lemma_leading_brackets(s);
        let elem = s.skip(d);
        assert(elem.len() == s.len() - d);
        lemma_find_nonbracket_unique(s, 0, d);
        if valid_prim_desc(elem) {
            assert(s[d] == elem[0]);
        } else {
            assert(valid_ref_desc(elem));
            assert(s[d] == elem[0]);
            assert(s[d] == 'L');
            assert(!prim_code(s[d]));
            assert forall|i: int| d + 1 <= i < s.len() - 1 implies s[i] != '.' && s[i] != ';' by {
                assert(elem[i - d] == s[i]);
                assert(1 <= i - d < elem.len() - 1);
            }
            assert(s[s.len() - 1] == elem[elem.len() - 1]);
            lemma_find_ref_end_unique(s, d + 1, s.len() - 1);
        }
    }
}

/// Positions after the parameter list of a signature: the list of the
/// parameters' descriptors and the position just past the closing `)`.
pub open spec fn take_params(s: Seq<char>, from: int) -> Option<(Seq<Seq<char>>, int)>
    decreases s.len() - from,
{
    if from < 0 || from >= s.len() {
        None
    } else if s[from] == ')' {
        Some((Seq::<Seq<char>>::empty(), from + 1))
    } else {
        match take_type_end(s, from) {
            None => None,
            Some(e) => if from < e <= s.len() {
                match take_params(s, e) {
                    None => None,
                    Some((ps, e2)) => Some((seq![s.subrange(from, e)].add(ps), e2)),
                }
            } else {
                None
            },
        }
    }
}

/// A whole method-signature descriptor starting at `from`: parameter
/// descriptors, return descriptor, and the end position.
pub open spec fn take_sig(s: Seq<char>, from: int) -> Option<(Seq<Seq<char>>, Seq<char>, int)> {
    if 0 <= from < s.len() && s[from] == '(' {
        match take_params(s, from + 1) {
            None => None,
            Some((ps, e)) => match take_type_end(s, e) {
                None => None,
                Some(e2) => Some((ps, s.subrange(e, e2), e2)),
            },
        }
    } else {
        None
    }
}

/// A whole string is a method-signature descriptor.
pub open spec fn valid_sig_desc(s: Seq<char>) -> bool {
    match take_sig(s, 0) {
        Some((ps, r, e)) => e == s.len(),
        None => false,
    }
}

/// What `take_params` yields: the concatenated parameters are exactly the
/// consumed text up to the closing `)`, and each one is a valid descriptor.
pub proof fn lemma_take_params(s: Seq<char>, from: int)
    requires
        0 <= from <= s.len(),
    ensures
        take_params(s, from) matches Some((ps, e)) ==> {
            &&& from < e <= s.len()
            &&& s[e - 1] == ')'
            &&& ps.flatten() == s.subrange(from, e - 1)
            &&& forall|i: int| 0 <= i < ps.len() ==> valid_type_desc(ps[i])
        },
    decreases s.len() - from,
{
    if take_params(s, from) is Some {
        let ps = take_params(s, from)->Some_0.0;
        let e = take_params(s, from)->Some_0.1;
        if s[from] == ')' {
            assert(ps.flatten() =~= s.subrange(from, from));
        } else {
            let te = take_type_end(s, from)->Some_0;
            lemma_take_type_end_bounds(s, from);
            lemma_take_type_valid(s, from);
            lemma_take_params(s, te);
            let tail = take_params(s, te)->Some_0;
            let ps0 = tail.0;
            assert(ps == seq![s.subrange(from, te)].add(ps0));
            assert(ps.drop_first() =~= ps0);
            assert(ps.first() == s.subrange(from, te));
            assert(ps.flatten() == s.subrange(from, te) + ps0.flatten());
            assert(ps.flatten() =~= s.subrange(from, e - 1));
            assert forall|i: int| 0 <= i < ps.len() implies valid_type_desc(ps[i]) by {
                if i > 0 {
                    assert(ps[i] == ps0[i - 1]);
                }
            }
        }
    }
}

/// What `take_sig` yields: the consumed text renders the signature.
pub proof fn lemma_take_sig(s: Seq<char>, from: int)
    requires
        0 <= from <= s.len(),
    ensures
        take_sig(s, from) matches Some((ps, r, e)) ==> {
            &&& from < e <= s.len()
            &&& s.subrange(from, e) == sig_render(ps, r)
            &&& valid_type_desc(r)
            &&& forall|i: int| 0 <= i < ps.len() ==> valid_type_desc(ps[i])
        },
{
    if take_sig(s, from) is Some {
        let ps = take_sig(s, from)->Some_0.0;
        let r = take_sig(s, from)->Some_0.1;
        let e = take_sig(s, from)->Some_0.2;
        let pe = take_params(s, from + 1)->Some_0.1;
        lemma_take_params(s, from + 1);
        lemma_take_type_end_bounds(s, pe);
        lemma_take_type_valid(s, pe);
        assert(s.subrange(from, e) =~= sig_render(ps, r)) by {
            assert(ps.flatten() == s.subrange(from + 1, pe - 1));
            assert(r == s.subrange(pe, e));
        }
    }
}

/// First index whose key equals `k`, or `-1` if absent.
pub open spec fn key_index<KV, VV>(s: Seq<(KV, VV)>, k: KV) -> int
    decreases s.len(),
{
    if s.len() == 0 {
        -1
    } else if s[0].0 == k {
        0
    } else {
        let r = key_index(s.drop_first(), k);
        if r < 0 {
            -1
        } else {
            r + 1
        }
    }
}

/// Whether some entry has key `k`.
pub open spec fn has_key<KV, VV>(s: Seq<(KV, VV)>, k: KV) -> bool {
    key_index(s, k) >= 0
}

/// The value stored under key `k`, if any.
pub open spec fn lookup<KV, VV>(s: Seq<(KV, VV)>, k: KV) -> Option<VV> {
    if has_key(s, k) {
        Some(s[key_index(s, k)].1)
    } else {
        None
    }
}

/// Insertion with last-write-wins semantics that keeps the position of an
/// existing key: the value is replaced in place, or the pair is appended.
pub open spec fn tbl_insert<KV, VV>(s: Seq<(KV, VV)>, k: KV, v: VV) -> Seq<(KV, VV)> {
    if has_key(s, k) {
        s.update(key_index(s, k), (s[key_index(s, k)].0, v))
    } else {
        s.push((k, v))
    }
}

/// No two entries share a key.
pub open spec fn distinct_keys<KV, VV>(s: Seq<(KV, VV)>) -> bool {
    forall|i: int, j: int| 0 <= i < j < s.len() ==> s[i].0 != s[j].0
}

/// View of a field key or entry side: declaring-class descriptor and name.
pub type FieldKeyV = (Seq<char>, Seq<char>);

/// View of a method key or entry side: declaring-class descriptor, name
/// and signature descriptor.
pub type MethodKeyV = (Seq<char>, Seq<char>, Seq<char>);

/// View of a field table of a frozen mapping.
pub type FieldsV = Seq<(FieldKeyV, FieldKeyV)>;

/// View of a method table of a frozen mapping.
pub type MethodsV = Seq<(MethodKeyV, MethodKeyV)>;

/// The class a class descriptor maps to: itself when absent.
pub open spec fn remap_class_v(c: ClassesV, k: Seq<char>) -> Seq<char> {
    match lookup(c, k) {
        Some(v) => v,
        None => k,
    }
}

/// A type descriptor with its nested reference remapped: a reference is
/// remapped itself, an array remaps its innermost element, anything else
/// is untouched.
pub open spec fn remap_type_v(c: ClassesV, t: Seq<char>) -> Seq<char> {
    if valid_ref_desc(t) {
        remap_class_v(c, t)
    } else if valid_array_desc(t) {
        let d = leading_brackets(t);
        let elem = t.skip(d);
        if valid_ref_desc(elem) {
            brackets(d) + remap_class_v(c, elem)
        } else {
            t
        }
    } else {
        t
    }
}

/// Each parameter descriptor remapped.
pub open spec fn remap_params_v(c: ClassesV, ps: Seq<Seq<char>>) -> Seq<Seq<char>> {
    ps.map_values(|p: Seq<char>| remap_type_v(c, p))
}

/// A whole signature descriptor remapped: its parameters and return type
/// are remapped and re-rendered.  Text that is not a signature descriptor
/// is untouched.
pub open spec fn remap_sig_desc_v(c: ClassesV, sd: Seq<char>) -> Seq<char> {
    match take_sig(sd, 0) {
        Some((ps, r, e)) => if e == sd.len() {
            sig_render(remap_params_v(c, ps), remap_type_v(c, r))
        } else {
            sd
        },
        None => sd,
    }
}

/// A field key with its declaring class remapped.
pub open spec fn remap_field_key_v(c: ClassesV, fk: FieldKeyV) -> FieldKeyV {
    (remap_class_v(c, fk.0), fk.1)
}

/// A method key with its declaring class and signature remapped.
pub open spec fn remap_method_key_v(c: ClassesV, mk: MethodKeyV) -> MethodKeyV {
    (remap_class_v(c, mk.0), mk.1, remap_sig_desc_v(c, mk.2))
}

/// Every class descriptor in the table, on both sides, is well formed.
pub open spec fn classes_v_wf(c: ClassesV) -> bool {
    forall|i: int|
        0 <= i < c.len() ==> valid_ref_desc((#[trigger] c[i]).0) && valid_ref_desc(c[i].1)
}

/// A lookup in a well-formed class table yields a well-formed descriptor.
pub proof fn lemma_wf_lookup(c: ClassesV, k: Seq<char>)
    requires
        classes_v_wf(c),
    ensures
        has_key(c, k) ==> valid_ref_desc(lookup(c, k)->Some_0),
        valid_ref_desc(k) ==> valid_ref_desc(remap_class_v(c, k)),
{
    lemma_key_index(c, k);
}

/// View of a builder's field table: field key to renamed name.
pub type FieldNamesV = Seq<(FieldKeyV, Seq<char>)>;

/// View of a builder's method table: method key to renamed name.
pub type MethodNamesV = Seq<(MethodKeyV, Seq<char>)>;

/// Each field entry resolved against a class table: the renamed side
/// carries the remapped declaring class and the renamed name.
pub open spec fn resolve_field_entries(c: ClassesV, fs: FieldNamesV) -> FieldsV {
    fs.map_values(|e: (FieldKeyV, Seq<char>)| (e.0, (remap_class_v(c, e.0.0), e.1)))
}

/// Each method entry resolved against a class table: the renamed side
/// carries the remapped declaring class, the renamed name and the
/// remapped signature.
pub open spec fn resolve_method_entries(c: ClassesV, ms: MethodNamesV) -> MethodsV {
    ms.map_values(
        |e: (MethodKeyV, Seq<char>)|
            (e.0, (remap_class_v(c, e.0.0), e.1, remap_sig_desc_v(c, e.0.2))),
    )
}

/// The total field remap: the stored entry, or the key with only its
/// nested class propagated.
pub open spec fn remap_field_total_v(c: ClassesV, f: FieldsV, k: FieldKeyV) -> FieldKeyV {
    match lookup(f, k) {
        Some(v) => v,
        None => remap_field_key_v(c, k),
    }
}

/// The total method remap.
pub open spec fn remap_method_total_v(c: ClassesV, m: MethodsV, k: MethodKeyV) -> MethodKeyV {
    match lookup(m, k) {
        Some(v) => v,
        None => remap_method_key_v(c, k),
    }
}

/// Every pair of the table swapped in place, with no collision handling.
pub open spec fn swap_all<KV, VV>(s: Seq<(KV, VV)>) -> Seq<(VV, KV)> {
    s.map_values(|e: (KV, VV)| (e.1, e.0))
}

/// No two entries share a value.
pub open spec fn distinct_values<KV, VV>(s: Seq<(KV, VV)>) -> bool {
    forall|i: int, j: int| 0 <= i < j < s.len() ==> s[i].1 != s[j].1
}

/// With distinct values, inversion is a plain swap of every pair.
pub proof fn lemma_invert_swap<KV, VV>(s: Seq<(KV, VV)>)
    requires
        distinct_values(s),
    ensures
        invert_tbl(s) == swap_all(s),
    decreases s.len(),
{
    if s.len() > 0 {
        let head = s.drop_last();
        assert(distinct_values(head)) by {
            assert forall|i: int, j: int| 0 <= i < j < head.len() implies head[i].1 != head[j].1 by {
                assert(head[i] == s[i]);
                assert(head[j] == s[j]);
            }
        }
        lemma_invert_swap(head);
        assert forall|i: int| 0 <= i < swap_all(head).len() implies swap_all(head)[i].0 != s.last().1
            by {
            assert(swap_all(head)[i].0 == head[i].1);
            assert(head[i].1 == s[i].1);
        }
        lemma_key_index_absent(swap_all(head), s.last().1);
        assert(invert_tbl(s) == swap_all(head).push((s.last().1, s.last().0)));
        assert(swap_all(s) =~= swap_all(head).push((s.last().1, s.last().0)));
    } else {
        assert(invert_tbl(s) =~= swap_all(s));
    }
}

/// Inverting twice gives the table back, provided both its keys and its
/// values are free of duplicates.
pub proof fn lemma_invert_involutive<KV, VV>(s: Seq<(KV, VV)>)
    requires
        distinct_keys(s),
        distinct_values(s),
    ensures
        invert_tbl(invert_tbl(s)) == s,
{
    lemma_invert_swap(s);
    assert(distinct_values(swap_all(s))) by {
        assert forall|i: int, j: int|
            0 <= i < j < swap_all(s).len() implies swap_all(s)[i].1 != swap_all(s)[j].1 by {
            assert(swap_all(s)[i].1 == s[i].0);
            assert(swap_all(s)[j].1 == s[j].0);
        }
    }
    lemma_invert_swap(swap_all(s));
    assert(swap_all(swap_all(s)) =~= s);
}

/// Inserting entries whose keys are distinct and fresh appends them all.
pub proof fn lemma_insert_all_fresh<KV, VV>(s: Seq<(KV, VV)>, more: Seq<(KV, VV)>)
    requires
        forall|i: int, j: int|
            0 <= i < s.len() && 0 <= j < more.len() ==> (#[trigger] s[i]).0 != (#[trigger] more[j]).0,
        distinct_keys(more),
    ensures
        tbl_insert_all(s, more) == s + more,
    decreases more.len(),
{
    if more.len() == 0 {
        assert(s + more =~= s);
    } else {
        let head = more.drop_last();
        assert forall|i: int, j: int|
            0 <= i < s.len() && 0 <= j < head.len() implies (#[trigger] s[i]).0 != (
        #[trigger] head[j]).0 by {
            assert(head[j] == more[j]);
        }
        assert(distinct_keys(head)) by {
            assert forall|i: int, j: int| 0 <= i < j < head.len() implies head[i].0 != head[j].0 by {
                assert(head[i] == more[i]);
                assert(head[j] == more[j]);
            }
        }
        lemma_insert_all_fresh(s, head);
        assert forall|i: int| 0 <= i < (s + head).len() implies (s + head)[i].0 != more.last().0 by {
            if i < s.len() {
                assert((s + head)[i] == s[i]);
            } else {
                assert((s + head)[i] == more[i - s.len()]);
            }
        }
        lemma_key_index_absent(s + head, more.last().0);
        assert(tbl_insert_all(s, more) == (s + head).push(more.last()));
        assert((s + head).push(more.last()) =~= s + more);
    }
}

/// Some entry carries `v` on its renamed side.
pub open spec fn in_values<KV, VV>(s: Seq<(KV, VV)>, v: VV) -> bool {
    exists|i: int| 0 <= i < s.len() && s[i].1 == v
}

/// The keys of an inverted table are the values of the table.
pub proof fn lemma_invert_keys<KV, VV>(s: Seq<(KV, VV)>, v: VV)
    ensures
        has_key(invert_tbl(s), v) <==> in_values(s, v),
    decreases s.len(),
{
    if s.len() == 0 {
        lemma_key_index(invert_tbl(s), v);
    } else {
        let head = s.drop_last();
        lemma_invert_keys(head, v);
        lemma_lookup_insert(invert_tbl(head), s.last().1, s.last().0, v);
        if has_key(invert_tbl(s), v) {
            if s.last().1 != v {
                assert(in_values(head, v));
                let i = choose|i: int| 0 <= i < head.len() && head[i].1 == v;
                assert(s[i].1 == v);
            } else {
                assert(s[s.len() - 1].1 == v);
            }
        }
        if in_values(s, v) && s.last().1 != v {
            let i = choose|i: int| 0 <= i < s.len() && s[i].1 == v;
            assert(head[i].1 == v);
        }
    }
}

/// First pass of chaining: entries of the second stage whose original is
/// not an output of the first, inserted in order.  Field and method keys
/// are first normalized through the first stage's inverse class table,
/// which `norm` performs (for classes it is the identity).
pub open spec fn chain_pass1<KV, VV>(
    a_inv: Seq<(KV, VV)>,
    b: Seq<(KV, VV)>,
    norm: spec_fn(KV) -> KV,
) -> Seq<(KV, VV)>
    decreases b.len(),
{
    if b.len() == 0 {
        Seq::<(KV, VV)>::empty()
    } else {
        let acc = chain_pass1(a_inv, b.drop_last(), norm);
        if has_key(a_inv, b.last().0) {
            acc
        } else {
            tbl_insert(acc, norm(b.last().0), b.last().1)
        }
    }
}

/// Second pass of chaining: every entry of the first stage, its renamed
/// side pushed through the second stage by `push`, inserted in order.
pub open spec fn chain_pass2<KV, VV>(
    acc: Seq<(KV, VV)>,
    a: Seq<(KV, VV)>,
    push: spec_fn(VV) -> VV,
) -> Seq<(KV, VV)>
    decreases a.len(),
{
    if a.len() == 0 {
        acc
    } else {
        tbl_insert(chain_pass2(acc, a.drop_last(), push), a.last().0, push(a.last().1))
    }
}

/// First pass over classes: class keys are not normalized.
pub open spec fn chain_classes_p1(a_inv: ClassesV, bc: ClassesV) -> ClassesV {
    chain_pass1(a_inv, bc, |k: Seq<char>| k)
}

/// First pass over fields: keys normalized through the inverse class
/// table, back to the oldest known name.
pub open spec fn chain_fields_p1(a_inv_f: FieldsV, a_inv_c: ClassesV, bf: FieldsV) -> FieldsV {
    chain_pass1(a_inv_f, bf, |k: FieldKeyV| remap_field_key_v(a_inv_c, k))
}

/// First pass over methods.
pub open spec fn chain_methods_p1(a_inv_m: MethodsV, a_inv_c: ClassesV, bm: MethodsV) -> MethodsV {
    chain_pass1(a_inv_m, bm, |k: MethodKeyV| remap_method_key_v(a_inv_c, k))
}

/// Second pass over classes.
pub open spec fn chain_classes_p2(acc: ClassesV, ac: ClassesV, bc: ClassesV) -> ClassesV {
    chain_pass2(acc, ac, |v: Seq<char>| remap_class_v(bc, v))
}

/// Second pass over fields.
pub open spec fn chain_fields_p2(acc: FieldsV, af: FieldsV, bc: ClassesV, bf: FieldsV) -> FieldsV {
    chain_pass2(acc, af, |v: FieldKeyV| remap_field_total_v(bc, bf, v))
}

/// Second pass over methods.
pub open spec fn chain_methods_p2(
    acc: MethodsV,
    am: MethodsV,
    bc: ClassesV,
    bm: MethodsV,
) -> MethodsV {
    chain_pass2(acc, am, |v: MethodKeyV| remap_method_total_v(bc, bm, v))
}

/// The chained class table.
pub open spec fn chain_classes(ac: ClassesV, a_inv: ClassesV, bc: ClassesV) -> ClassesV {
    chain_classes_p2(chain_classes_p1(a_inv, bc), ac, bc)
}

/// The chained field table.
pub open spec fn chain_fields(
    af: FieldsV,
    a_inv_f: FieldsV,
    a_inv_c: ClassesV,
    bc: ClassesV,
    bf: FieldsV,
) -> FieldsV {
    chain_fields_p2(chain_fields_p1(a_inv_f, a_inv_c, bf), af, bc, bf)
}

/// The chained method table.
pub open spec fn chain_methods(
    am: MethodsV,
    a_inv_m: MethodsV,
    a_inv_c: ClassesV,
    bc: ClassesV,
    bm: MethodsV,
) -> MethodsV {
    chain_methods_p2(chain_methods_p1(a_inv_m, a_inv_c, bm), am, bc, bm)
}

/// The keys the first pass produces: second-stage originals that are not
/// outputs of the first stage, under `norm`.
pub proof fn lemma_chain_pass1_keys<KV, VV>(
    a_inv: Seq<(KV, VV)>,
    b: Seq<(KV, VV)>,
    norm: spec_fn(KV) -> KV,
    k: KV,
)
    requires
        forall|x: KV| #[trigger] norm(x) == x,
    ensures
        has_key(chain_pass1(a_inv, b, norm), k) <==> (has_key(b, k) && !has_key(a_inv, k)),
        has_key(b, k) && !has_key(a_inv, k) ==> lookup(chain_pass1(a_inv, b, norm), k) == Some(
            b[key_index(b, k)].1,
        ) || exists|i: int|
            0 <= i < b.len() && b[i].0 == k && lookup(chain_pass1(a_inv, b, norm), k) == Some(
                b[i].1,
            ),
    decreases b.len(),
{
    lemma_key_index(b, k);
    if b.len() == 0 {
        lemma_key_index(chain_pass1(a_inv, b, norm), k);
    } else {
        let head = b.drop_last();
        lemma_chain_pass1_keys(a_inv, head, norm, k);
        let acc = chain_pass1(a_inv, head, norm);
        lemma_key_index(head, k);
        if !has_key(a_inv, b.last().0) {
            lemma_lookup_insert(acc, norm(b.last().0), b.last().1, k);
        }
        assert(has_key(b, k) <==> (has_key(head, k) || b.last().0 == k)) by {
            assert(head.push(b.last()) =~= b);
            lemma_key_index_push(head, b.last(), k);
        }
        if has_key(chain_pass1(a_inv, b, norm), k) && !(has_key(b, k) && !has_key(a_inv, k)) {
            assert(false);
        }
        if has_key(b, k) && !has_key(a_inv, k) {
            if b.last().0 == k {
                assert(lookup(chain_pass1(a_inv, b, norm), k) == Some(b[b.len() - 1].1));
                assert(b[b.len() - 1].0 == k);
            } else {
                assert(has_key(head, k));
                let i = choose|i: int|
                    0 <= i < head.len() && head[i].0 == k && lookup(acc, k) == Some(head[i].1);
                assert(b[i] == head[i]);
            }
        }
    }
}

/// The keys the first pass produces under an arbitrary normalization:
/// exactly the images of second-stage originals that are not outputs of
/// the first stage.
pub proof fn lemma_chain_pass1_keys_norm<KV, VV>(
    a_inv: Seq<(KV, VV)>,
    b: Seq<(KV, VV)>,
    norm: spec_fn(KV) -> KV,
    k: KV,
)
    ensures
        has_key(chain_pass1(a_inv, b, norm), k) <==> exists|j: int|
            0 <= j < b.len() && norm((#[trigger] b[j]).0) == k && !has_key(a_inv, b[j].0),
    decreases b.len(),
{
    if b.len() == 0 {
        lemma_key_index(chain_pass1(a_inv, b, norm), k);
    } else {
        let head = b.drop_last();
        lemma_chain_pass1_keys_norm(a_inv, head, norm, k);
        let acc = chain_pass1(a_inv, head, norm);
        if !has_key(a_inv, b.last().0) {
            lemma_lookup_insert(acc, norm(b.last().0), b.last().1, k);
        }
        if has_key(chain_pass1(a_inv, b, norm), k) {
            if has_key(acc, k) {
                let j = choose|j: int|
                    0 <= j < head.len() && norm((#[trigger] head[j]).0) == k && !has_key(
                        a_inv,
                        head[j].0,
                    );
                assert(b[j] == head[j]);
                assert(norm(b[j].0) == k && !has_key(a_inv, b[j].0));
            } else {
                assert(norm(b[b.len() - 1].0) == k && !has_key(a_inv, b[b.len() - 1].0));
            }
        }
        if exists|j: int|
            0 <= j < b.len() && norm((#[trigger] b[j]).0) == k && !has_key(a_inv, b[j].0) {
            let j = choose|j: int|
                0 <= j < b.len() && norm((#[trigger] b[j]).0) == k && !has_key(a_inv, b[j].0);
            if j < b.len() - 1 {
                assert(head[j] == b[j]);
                assert(has_key(acc, k));
            }
        }
    }
}

/// Lookup in the chained table, for a key of the first stage: its value
/// pushed through the second stage.
pub proof fn lemma_chain_pass2_lookup<KV, VV>(
    acc: Seq<(KV, VV)>,
    a: Seq<(KV, VV)>,
    push: spec_fn(VV) -> VV,
    k: KV,
)
    requires
        distinct_keys(a),
    ensures
        has_key(chain_pass2(acc, a, push), k) <==> (has_key(acc, k) || has_key(a, k)),
        has_key(a, k) ==> lookup(chain_pass2(acc, a, push), k) == Some(
            push(a[key_index(a, k)].1),
        ),
        !has_key(a, k) ==> lookup(chain_pass2(acc, a, push), k) == lookup(acc, k),
    decreases a.len(),
{
    lemma_key_index(a, k);
    if a.len() > 0 {
        let head = a.drop_last();
        assert(distinct_keys(head)) by {
            assert forall|i: int, j: int| 0 <= i < j < head.len() implies head[i].0 != head[j].0 by {
                assert(head[i] == a[i]);
                assert(head[j] == a[j]);
            }
        }
        lemma_chain_pass2_lookup(acc, head, push, k);
        lemma_lookup_insert(chain_pass2(acc, head, push), a.last().0, push(a.last().1), k);
        lemma_key_index(head, k);
        assert(has_key(a, k) <==> (has_key(head, k) || a.last().0 == k)) by {
            assert(head.push(a.last()) =~= a);
            lemma_key_index_push(head, a.last(), k);
        }
        if has_key(a, k) {
            if a.last().0 == k {
                assert(forall|i: int| 0 <= i < a.len() - 1 ==> a[i].0 != k);
                assert(key_index(a, k) == a.len() - 1) by {
                    lemma_key_index_unique(a, k, a.len() - 1);
                }
            } else {
                assert(has_key(head, k));
                assert(a[key_index(head, k)] == head[key_index(head, k)]);
                lemma_key_index_unique(a, k, key_index(head, k));
            }
        }
    }
}

/// The chained class table's key set: the first stage's originals plus
/// the second stage's originals that are not outputs of the first.
pub proof fn lemma_chain_domain(ac: ClassesV, bc: ClassesV, k: Seq<char>)
    requires
        distinct_keys(ac),
    ensures
        has_key(chain_classes(ac, invert_tbl(ac), bc), k) <==> (has_key(ac, k) || (has_key(bc, k)
            && !in_values(ac, k))),
{
    let norm = |x: Seq<char>| x;
    lemma_chain_pass1_keys(invert_tbl(ac), bc, norm, k);
    lemma_chain_pass2_lookup(chain_pass1(invert_tbl(ac), bc, norm), ac, |v: Seq<char>| remap_class_v(bc, v), k);
    lemma_invert_keys(ac, k);
}

/// Lookup in a chained class table.
pub proof fn lemma_chain_class_lookup(ac: ClassesV, a_inv: ClassesV, bc: ClassesV, k: Seq<char>)
    requires
        distinct_keys(ac),
    ensures
        has_key(ac, k) ==> lookup(chain_classes(ac, a_inv, bc), k) == Some(
            remap_class_v(bc, lookup(ac, k)->Some_0),
        ),
        !has_key(ac, k) ==> lookup(chain_classes(ac, a_inv, bc), k) == lookup(
            chain_pass1(a_inv, bc, |x: Seq<char>| x),
            k,
        ),
{
    let norm = |x: Seq<char>| x;
    let push = |v: Seq<char>| remap_class_v(bc, v);
    lemma_chain_pass2_lookup(chain_pass1(a_inv, bc, norm), ac, push, k);
    lemma_key_index(ac, k);
}

/// Composition through a chain: remapping through `chain(b, c)` is
/// remapping through `b` and then through `c`, provided no original of
/// `c` is an output-only name of `b` (a name `b` produces but does not
/// also consume).
pub proof fn lemma_chain_remap_compose(bc: ClassesV, cc: ClassesV, v: Seq<char>)
    requires
        distinct_keys(bc),
        distinct_keys(cc),
        forall|x: Seq<char>| has_key(cc, x) && in_values(bc, x) ==> has_key(bc, x),
    ensures
        remap_class_v(chain_classes(bc, invert_tbl(bc), cc), v) == remap_class_v(
            cc,
            remap_class_v(bc, v),
        ),
{
    let norm = |x: Seq<char>| x;
    lemma_chain_class_lookup(bc, invert_tbl(bc), cc, v);
    lemma_chain_pass1_keys(invert_tbl(bc), cc, norm, v);
    lemma_invert_keys(bc, v);
    lemma_key_index(bc, v);
    lemma_key_index(cc, v);
    if !has_key(bc, v) && has_key(cc, v) {
        assert(!in_values(bc, v));
        let p1 = chain_pass1(invert_tbl(bc), cc, norm);
        assert(has_key(p1, v));
        if lookup(p1, v) != Some(cc[key_index(cc, v)].1) {
            let i = choose|i: int|
                0 <= i < cc.len() && cc[i].0 == v && lookup(p1, v) == Some(cc[i].1);
            if i != key_index(cc, v) {
                assert(cc[i].0 == cc[key_index(cc, v)].0);
                assert(false);
            }
        }
    }
}

/// No valid type descriptor starts with `)`.
pub proof fn lemma_type_first_char(t: Seq<char>)
    requires
        valid_type_desc(t),
    ensures
        t.len() >= 1,
        prim_code(t[0]) || t[0] == 'L' || t[0] == '[',
        t[0] != ')',
{
    if valid_array_desc(t) && !valid_prim_desc(t) && !valid_ref_desc(t) {
        lemma_leading_brackets(t);
        assert(t.skip(leading_brackets(t)).len() >= 1);
    }
}

/// Taking one descriptor stops exactly at the end of a valid descriptor
/// laid out at the position, whatever text follows it.
pub proof fn lemma_take_type_prefix(s: Seq<char>, q: int, t: Seq<char>)
    requires
        0 <= q,
        q + t.len() <= s.len(),
        s.subrange(q, q + t.len()) == t,
        valid_type_desc(t),
    ensures
        take_type_end(s, q) == Some(q + t.len()),
{
    lemma_type_first_char(t);
    assert(s[q] == t[0]);
    if valid_prim_desc(t) {
    } else if valid_ref_desc(t) {
        assert forall|i: int| q + 1 <= i < q + t.len() - 1 implies s[i] != '.' && s[i] != ';' by {
            assert(s[i] == t[i - q]);
        }
        assert(s[q + t.len() - 1] == t[t.len() - 1]);
        lemma_find_ref_end_unique(s, q + 1, q + t.len() - 1);
    } else {
        let d = leading_brackets(t);
        lemma_leading_brackets(t);
        let elem = t.skip(d);
        assert forall|i: int| q <= i < q + d implies s[i] == '[' by {
            assert(s[i] == t[i - q]);
        }
        assert(s[q + d] == t[d]);
        assert(t[d] == elem[0]);
        lemma_type_first_char(elem);
        assert(elem[0] != '[');
        lemma_find_nonbracket_unique(s, q, q + d);
        if valid_prim_desc(elem) {
            assert(prim_code(s[q + d]));
        } else {
            assert(elem[0] == 'L');
            assert(!prim_code('L'));
            assert forall|i: int| q + d + 1 <= i < q + t.len() - 1 implies s[i] != '.' && s[i]
                != ';' by {
                assert(s[i] == t[i - q]);
                assert(t[i - q] == elem[i - q - d]);
                assert(1 <= i - q - d < elem.len() - 1);
            }
            assert(s[q + t.len() - 1] == t[t.len() - 1]);
            assert(t[t.len() - 1] == elem[elem.len() - 1]);
            lemma_find_ref_end_unique(s, q + d + 1, q + t.len() - 1);
        }
    }
}

/// Taking a parameter list recovers exactly the parameters it was
/// rendered from.
pub proof fn lemma_take_params_render(s: Seq<char>, q: int, ps: Seq<Seq<char>>)
    requires
        0 <= q,
        q + ps.flatten().len() < s.len(),
        s.subrange(q, q + ps.flatten().len()) == ps.flatten(),
        s[q + ps.flatten().len()] == ')',
        forall|i: int| 0 <= i < ps.len() ==> valid_type_desc(#[trigger] ps[i]),
    ensures
        take_params(s, q) == Some((ps, q + ps.flatten().len() + 1)),
    decreases ps.len(),
{
    if ps.len() == 0 {
        assert(ps.flatten().len() == 0) by {
            assert(ps.flatten() =~= Seq::<char>::empty());
        }
        assert(s[q] == ')');
        assert(take_params(s, q) == Some((Seq::<Seq<char>>::empty(), q + 1)));
        assert(ps =~= Seq::<Seq<char>>::empty());
    } else {
        let head = ps.first();
        let tail = ps.drop_first();
        assert(ps.flatten() == head + tail.flatten());
        assert(valid_type_desc(head));
        lemma_type_first_char(head);
        assert(s[q] == ps.flatten()[0]);
        assert(ps.flatten()[0] == head[0]);
        assert(s[q] != ')');
        assert(s.subrange(q, q + head.len()) =~= head) by {
            assert forall|i: int| 0 <= i < head.len() implies s[q + i] == head[i] by {
                assert(s[q + i] == ps.flatten()[i]);
            }
        }
        lemma_take_type_prefix(s, q, head);
        let q2 = q + head.len();
        assert(s.subrange(q2, q2 + tail.flatten().len()) =~= tail.flatten()) by {
            assert forall|i: int| 0 <= i < tail.flatten().len() implies s[q2 + i]
                == tail.flatten()[i] by {
                assert(s[q2 + i] == ps.flatten()[head.len() + i]);
                assert(ps.flatten()[head.len() + i] == tail.flatten()[i]);
            }
        }
        assert forall|i: int| 0 <= i < tail.len() implies valid_type_desc(#[trigger] tail[i]) by {
            assert(tail[i] == ps[i + 1]);
        }
        lemma_take_params_render(s, q2, tail);
        assert(seq![s.subrange(q, q2)].add(tail) =~= ps);
    }
}

/// Parsing a rendered signature gives back its parts.
pub proof fn lemma_sig_roundtrip(ps: Seq<Seq<char>>, r: Seq<char>)
    requires
        forall|i: int| 0 <= i < ps.len() ==> valid_type_desc(#[trigger] ps[i]),
        valid_type_desc(r),
    ensures
        take_sig(sig_render(ps, r), 0) == Some((ps, r, sig_render(ps, r).len() as int)),
        valid_sig_desc(sig_render(ps, r)),
{
    let s = sig_render(ps, r);
    let fl = ps.flatten();
    let fln = fl.len() as int;
    assert(s[0] == '(');
    assert(s.subrange(1, 1 + fln) =~= fl) by {
        assert forall|i: int| 0 <= i < fln implies s[1 + i] == fl[i] by {
            assert(s[1 + i] == (seq!['('] + fl + seq![')'] + r)[1 + i]);
        }
    }
    assert(s[1 + fln] == ')');
    lemma_take_params_render(s, 1, ps);
    let e = 1 + fln + 1;
    let rn = r.len() as int;
    assert(s.subrange(e, e + rn) =~= r) by {
        assert forall|i: int| 0 <= i < rn implies s[e + i] == r[i] by {
            assert(s[e + i] == (seq!['('] + fl + seq![')'] + r)[e + i]);
        }
    }
    lemma_take_type_prefix(s, e, r);
    assert(take_sig(s, 0) == Some((ps, s.subrange(e, e + rn), e + rn)));
    assert(s.subrange(e, e + rn) == r);
    assert(e + rn == s.len());
}

/// Rendering is injective on valid parts.
pub proof fn lemma_render_injective(
    ps1: Seq<Seq<char>>,
    r1: Seq<char>,
    ps2: Seq<Seq<char>>,
    r2: Seq<char>,
)
    requires
        forall|i: int| 0 <= i < ps1.len() ==> valid_type_desc(#[trigger] ps1[i]),
        valid_type_desc(r1),
        forall|i: int| 0 <= i < ps2.len() ==> valid_type_desc(#[trigger] ps2[i]),
        valid_type_desc(r2),
        sig_render(ps1, r1) == sig_render(ps2, r2),
    ensures
        ps1 == ps2,
        r1 == r2,
{
    lemma_sig_roundtrip(ps1, r1);
    lemma_sig_roundtrip(ps2, r2);
}

/// Sequentially inserting every pair of `more` into `s`, front to back.
pub open spec fn tbl_insert_all<KV, VV>(s: Seq<(KV, VV)>, more: Seq<(KV, VV)>) -> Seq<(KV, VV)>
    decreases more.len(),
{
    if more.len() == 0 {
        s
    } else {
        tbl_insert(tbl_insert_all(s, more.drop_last()), more.last().0, more.last().1)
    }
}

/// The table with every pair of `s` swapped, inserted in order: a later
/// pair wins when two pairs share a value.
pub open spec fn invert_tbl<KV, VV>(s: Seq<(KV, VV)>) -> Seq<(VV, KV)>
    decreases s.len(),
{
    if s.len() == 0 {
        Seq::<(VV, KV)>::empty()
    } else {
        tbl_insert(invert_tbl(s.drop_last()), s.last().1, s.last().0)
    }
}

/// `key_index` looks only at keys.
pub proof fn lemma_key_index_keys_equal<KV, VV>(s1: Seq<(KV, VV)>, s2: Seq<(KV, VV)>, k: KV)
    requires
        s1.len() == s2.len(),
        forall|j: int| 0 <= j < s1.len() ==> s1[j].0 == s2[j].0,
    ensures
        key_index(s1, k) == key_index(s2, k),
    decreases s1.len(),
{
    if s1.len() > 0 {
        lemma_key_index_keys_equal(s1.drop_first(), s2.drop_first(), k);
        assert forall|j: int| 0 <= j < s1.drop_first().len() implies s1.drop_first()[j].0
            == s2.drop_first()[j].0 by {
            assert(s1.drop_first()[j] == s1[j + 1]);
            assert(s2.drop_first()[j] == s2[j + 1]);
        }
    }
}

/// Any position with the first-match characterization is `key_index`.
pub proof fn lemma_key_index_unique<KV, VV>(s: Seq<(KV, VV)>, k: KV, p: int)
    requires
        0 <= p < s.len(),
        s[p].0 == k,
        forall|i: int| 0 <= i < p ==> s[i].0 != k,
    ensures
        key_index(s, k) == p,
{
    lemma_key_index(s, k);
    if key_index(s, k) == -1 {
        assert(s[p].0 != k);
    } else {
        let q = key_index(s, k);
        if q < p {
            assert(s[q].0 != k);
        }
        if p < q {
            assert(s[p].0 != k);
        }
    }
}

/// A key absent from every entry has no index.
pub proof fn lemma_key_index_absent<KV, VV>(s: Seq<(KV, VV)>, k: KV)
    requires
        forall|i: int| 0 <= i < s.len() ==> s[i].0 != k,
    ensures
        key_index(s, k) == -1,
{
    lemma_key_index(s, k);
    if key_index(s, k) >= 0 {
        assert(s[key_index(s, k)].0 != k);
    }
}

/// How `key_index` behaves on a sequence extended by one pair.
pub proof fn lemma_key_index_push<KV, VV>(s: Seq<(KV, VV)>, p: (KV, VV), k: KV)
    ensures
        key_index(s.push(p), k) == if has_key(s, k) {
            key_index(s, k)
        } else if p.0 == k {
            s.len() as int
        } else {
            -1
        },
{
    lemma_key_index(s, k);
    let s2 = s.push(p);
    if has_key(s, k) {
        let i = key_index(s, k);
        assert(s2[i] == s[i]);
        assert forall|j: int| 0 <= j < i implies s2[j].0 != k by {
            assert(s2[j] == s[j]);
        }
        lemma_key_index_unique(s2, k, i);
    } else if p.0 == k {
        assert(s2[s.len() as int] == p);
        assert forall|j: int| 0 <= j < s.len() implies s2[j].0 != k by {
            assert(s2[j] == s[j]);
        }
        lemma_key_index_unique(s2, k, s.len() as int);
    } else {
        assert forall|j: int| 0 <= j < s2.len() implies s2[j].0 != k by {
            if j < s.len() {
                assert(s2[j] == s[j]);
            } else {
                assert(s2[j] == p);
            }
        }
        lemma_key_index_absent(s2, k);
    }
}

/// Lookup after insertion: the inserted key maps to the new value and
/// every other key is untouched.
pub proof fn lemma_lookup_insert<KV, VV>(s: Seq<(KV, VV)>, k: KV, v: VV, k2: KV)
    ensures
        lookup(tbl_insert(s, k, v), k2) == if k2 == k {
            Some(v)
        } else {
            lookup(s, k2)
        },
        has_key(tbl_insert(s, k, v), k2) == (k2 == k || has_key(s, k2)),
{
    lemma_key_index(s, k);
    lemma_key_index(s, k2);
    let s2 = tbl_insert(s, k, v);
    if has_key(s, k) {
        let i = key_index(s, k);
        assert(s2 =~= s.update(i, (s[i].0, v)));
        lemma_key_index_keys_equal(s2, s, k2);
        lemma_key_index(s2, k2);
        if k2 == k {
            assert(s2[key_index(s2, k2)].1 == v) by {
                assert(key_index(s2, k2) == key_index(s, k));
            }
        } else {
            if key_index(s, k2) >= 0 {
                assert(s[key_index(s, k2)].0 == k2);
                assert(key_index(s, k2) != i);
                assert(s2[key_index(s, k2)].1 == s[key_index(s, k2)].1);
            }
        }
    } else {
        assert(s2 == s.push((k, v)));
        lemma_key_index_push(s, (k, v), k2);
        lemma_key_index(s2, k2);
        if k2 == k {
            assert(s2[s.len() as int].1 == v);
        } else if has_key(s, k2) {
            assert(s2[key_index(s, k2)] == s[key_index(s, k2)]);
        }
    }
}

/// Insertion keeps keys distinct.
pub proof fn lemma_insert_distinct<KV, VV>(s: Seq<(KV, VV)>, k: KV, v: VV)
    requires
        distinct_keys(s),
    ensures
        distinct_keys(tbl_insert(s, k, v)),
{
    lemma_key_index(s, k);
    let s2 = tbl_insert(s, k, v);
    if has_key(s, k) {
        let i = key_index(s, k);
        assert forall|a: int, b: int| 0 <= a < b < s2.len() implies s2[a].0 != s2[b].0 by {
            assert(s2[a].0 == s[a].0);
            assert(s2[b].0 == s[b].0);
        }
    } else {
        assert forall|a: int, b: int| 0 <= a < b < s2.len() implies s2[a].0 != s2[b].0 by {
            if b < s.len() {
                assert(s2[a].0 == s[a].0);
                assert(s2[b].0 == s[b].0);
            } else {
                assert(s2[b].0 == k);
                assert(s2[a].0 == s[a].0);
            }
        }
    }
}

/// Two tables hold the same associations, in whatever order: they have
/// as many entries, and every key of the first maps to the same value in
/// the second.
pub open spec fn tbl_equiv<KV, VV>(a: Seq<(KV, VV)>, b: Seq<(KV, VV)>) -> bool {
    &&& a.len() == b.len()
    &&& forall|i: int|
        0 <= i < a.len() ==> lookup(b, (#[trigger] a[i]).0) == Some(a[i].1)
}

/// The characterization of `key_index`: either the key is absent from
/// every entry, or `key_index` names the first entry holding it.
pub proof fn lemma_key_index<KV, VV>(s: Seq<(KV, VV)>, k: KV)
    ensures
        key_index(s, k) == -1 ==> forall|i: int| 0 <= i < s.len() ==> s[i].0 != k,
        key_index(s, k) >= 0 ==> {
            &&& key_index(s, k) < s.len()
            &&& s[key_index(s, k)].0 == k
            &&& forall|i: int| 0 <= i < key_index(s, k) ==> s[i].0 != k
        },
    decreases s.len(),
{
    if s.len() > 0 && s[0].0 != k {
        lemma_key_index(s.drop_first(), k);
        assert forall|i: int| 0 <= i < s.len() && key_index(s, k) == -1 implies s[i].0 != k by {
            if i > 0 {
                assert(s.drop_first()[i - 1] == s[i]);
            }
        }
        if key_index(s, k) >= 0 {
            assert(s.drop_first()[key_index(s, k) - 1] == s[key_index(s, k)]);
            assert forall|i: int| 0 <= i < key_index(s, k) implies s[i].0 != k by {
                if i > 0 {
                    assert(s.drop_first()[i - 1] == s[i]);
                }
            }
        }
    }
}

} // verus!
