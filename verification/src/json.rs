use vstd::prelude::*;

use crate::index::spec_int_str;
use crate::nums::{spec_dec, u64_to_dec};
use crate::text::{chars_to_string, str_to_chars};
use crate::value::{Jv, Value, jvs_of, lemma_jvs_of, lemma_pairs_of, pairs_of};

verus! {

/// A string character, escaped for rendering.
pub open spec fn esc_char(c: char) -> Seq<char> {
    if c == '"' {
        seq!['\\', '"']
    } else if c == '\\' {
        seq!['\\', '\\']
    } else {
        seq![c]
    }
}

/// The escaped body of a rendered string literal.
pub open spec fn spec_escape(s: Seq<char>) -> Seq<char>
    decreases s.len(),
{
    if s.len() == 0 {
        Seq::empty()
    } else {
        esc_char(s[0]) + spec_escape(s.drop_first())
    }
}

/// Appending one character escapes it after the rest.
proof fn lemma_escape_snoc(s: Seq<char>, c: char)
    ensures
        spec_escape(s.push(c)) == spec_escape(s) + esc_char(c),
    decreases s.len(),
{
    if s.len() == 0 {
        assert(s.push(c)[0] == c);
        assert(s.push(c).drop_first() =~= Seq::<char>::empty());
        assert(spec_escape(s.push(c)) == esc_char(c) + spec_escape(Seq::<char>::empty()));
        assert(esc_char(c) + spec_escape(Seq::<char>::empty()) =~= esc_char(c));
        assert(spec_escape(s) + esc_char(c) =~= esc_char(c));
    } else {
        assert(s.push(c)[0] == s[0]);
        assert(s.push(c).drop_first() =~= s.drop_first().push(c));
        lemma_escape_snoc(s.drop_first(), c);
        assert(spec_escape(s.push(c)) =~= spec_escape(s) + esc_char(c));
    }
}

/// Escaping distributes over concatenation.
proof fn lemma_escape_cat(a: Seq<char>, b: Seq<char>)
    ensures
        spec_escape(a + b) == spec_escape(a) + spec_escape(b),
    decreases a.len(),
{
    if a.len() == 0 {
        assert(a + b =~= b);
        assert(spec_escape(a) + spec_escape(b) =~= spec_escape(b));
    } else {
        assert((a + b)[0] == a[0]);
        assert((a + b).drop_first() =~= a.drop_first() + b);
        lemma_escape_cat(a.drop_first(), b);
        assert(spec_escape(a + b) =~= spec_escape(a) + spec_escape(b));
    }
}

/// Escaping never loses information.
proof fn lemma_escape_injective(a: Seq<char>, b: Seq<char>)
    requires
        spec_escape(a) == spec_escape(b),
    ensures
        a == b,
    decreases a.len(),
{
    if a.len() == 0 {
        assert(spec_escape(a) == Seq::<char>::empty());
        assert(b.len() == 0) by {
            if b.len() > 0 {
                assert(spec_escape(b) == esc_char(b[0]) + spec_escape(b.drop_first()));
                assert(esc_char(b[0]).len() >= 1);
                assert(spec_escape(b).len() >= 1);
            }
        }
        assert(a =~= b);
    } else {
        assert(spec_escape(a).len() >= esc_char(a[0]).len());
        assert(b.len() > 0);
        let ea = esc_char(a[0]);
        let eb = esc_char(b[0]);
        assert(spec_escape(a)[0] == ea[0]);
        assert(spec_escape(b)[0] == eb[0]);
        if a[0] == '"' || a[0] == '\\' {
            assert(ea[0] == '\\');
            assert(eb[0] == '\\');
            assert(b[0] == '"' || b[0] == '\\');
            assert(spec_escape(a)[1] == ea[1] && ea[1] == a[0]);
            assert(spec_escape(b)[1] == eb[1] && eb[1] == b[0]);
            assert(a[0] == b[0]);
        } else {
            assert(ea[0] == a[0]);
            if b[0] == '"' || b[0] == '\\' {
                assert(eb[0] == '\\');
                assert(a[0] == '\\');
            }
            assert(a[0] == b[0]);
        }
        assert(ea == eb);
        assert(spec_escape(a.drop_first()) =~= spec_escape(b.drop_first())) by {
            assert(spec_escape(a) == ea + spec_escape(a.drop_first()));
            assert(spec_escape(b) == ea + spec_escape(b.drop_first()));
            assert(forall|x: int|
                0 <= x < spec_escape(a.drop_first()).len() ==> #[trigger] spec_escape(
                    a.drop_first(),
                )[x] == spec_escape(a)[ea.len() + x]);
            assert(forall|x: int|
                0 <= x < spec_escape(b.drop_first()).len() ==> #[trigger] spec_escape(
                    b.drop_first(),
                )[x] == spec_escape(b)[ea.len() + x]);
        }
        lemma_escape_injective(a.drop_first(), b.drop_first());
        assert(a.len() == b.len());
        assert forall|x: int| 1 <= x < a.len() implies a[x] == b[x] by {
            assert(a.drop_first()[x - 1] == a[x]);
            assert(b.drop_first()[x - 1] == b[x]);
        }
        assert(a =~= b);
    }
}

/// The rendered text of a value: a compact form with quoted, escaped
/// strings, decimal numbers, and comma-separated array and object bodies.
pub open spec fn spec_render(v: Jv) -> Seq<char>
    decreases v,
    via spec_render_decreases
{
    match v {
        Jv::Null => "null"@,
        Jv::Bool(b) => if b {
            "true"@
        } else {
            "false"@
        },
        Jv::Int(n) => spec_int_str(n),
        Jv::Str(s) => seq!['"'] + spec_escape(s) + seq!['"'],
        Jv::Arr(items) => seq!['['] + spec_render_items(items) + seq![']'],
        Jv::Obj(pairs) => seq!['{'] + spec_render_pairs(pairs) + seq!['}'],
    }
}

/// The rendered, comma-separated body of an array.
pub open spec fn spec_render_items(items: Seq<Jv>) -> Seq<char>
    decreases items,
    via spec_render_items_decreases
{
    if items.len() == 0 {
        Seq::empty()
    } else if items.len() == 1 {
        spec_render(items[0])
    } else {
        spec_render(items[0]) + seq![','] + spec_render_items(items.drop_first())
    }
}

/// The rendered, comma-separated body of an object.
pub open spec fn spec_render_pairs(pairs: Seq<(Seq<char>, Jv)>) -> Seq<char>
    decreases pairs,
    via spec_render_pairs_decreases
{
    if pairs.len() == 0 {
        Seq::empty()
    } else {
        let one = seq!['"'] + spec_escape(pairs[0].0) + seq!['"'] + seq![':'] + spec_render(
            pairs[0].1,
        );
        if pairs.len() == 1 {
            one
        } else {
            one + seq![','] + spec_render_pairs(pairs.drop_first())
        }
    }
}

#[via_fn]
proof fn spec_render_decreases(v: Jv) {
    match v {
        Jv::Arr(items) => {
            assert(decreases_to!(v => v->Arr_0));
        },
        Jv::Obj(pairs) => {
            assert(decreases_to!(v => v->Obj_0));
        },
        _ => {},
    }
}

#[via_fn]
proof fn spec_render_items_decreases(items: Seq<Jv>) {
    if items.len() > 0 {
        assert(decreases_to!(items => items[0]));
    }
}

#[via_fn]
proof fn spec_render_pairs_decreases(pairs: Seq<(Seq<char>, Jv)>) {
    if pairs.len() > 0 {
        assert(decreases_to!(pairs => pairs[0]));
        assert(decreases_to!(pairs[0] => pairs[0].1));
    }
}

/// Writes the escaped body of a string literal.
#[verifier::loop_isolation(false)]
fn render_escaped(s: &String, out: &mut Vec<char>)
    ensures
        final(out)@ == old(out)@ + spec_escape(s@),
{
    let cs = str_to_chars(s.as_str());
    let mut i: usize = 0;
    while i < cs.len()
        invariant
            0 <= i <= cs@.len(),
            cs@ == s@,
            out@ == old(out)@ + spec_escape(s@.take(i as int)),
        decreases cs@.len() - i,
    {
        proof {
            assert(s@.take(0) =~= Seq::<char>::empty());
        }
        let c = cs[i];
        if c == '"' {
            out.push('\\');
            out.push('"');
        } else if c == '\\' {
            out.push('\\');
            out.push('\\');
        } else {
            out.push(c);
        }
        proof {
            assert(s@.take(i + 1) =~= s@.take(i as int).push(s@[i as int]));
            lemma_escape_snoc(s@.take(i as int), s@[i as int]);
            assert(out@ =~= old(out)@ + spec_escape(s@.take(i + 1)));
        }
        i += 1;
    }
    proof {
        assert(s@.take(s@.len() as int) =~= s@);
    }
}

/// Writes the rendered text of `v`.
#[verifier::loop_isolation(false)]
#[verifier::rlimit(60)]
pub fn render_value(v: &Value, out: &mut Vec<char>)
    ensures
        final(out)@ == old(out)@ + spec_render(v@),
    decreases *v,
{
    broadcast use lemma_jvs_of, lemma_pairs_of;

    match v {
        Value::Null => {
            proof {
                reveal_strlit("null");
            }
            out.push('n');
            out.push('u');
            out.push('l');
            out.push('l');
            proof {
                assert(out@ =~= old(out)@ + "null"@);
            }
        },
        Value::Bool(b) => {
            proof {
                reveal_strlit("true");
                reveal_strlit("false");
            }
            if *b {
                out.push('t');
                out.push('r');
                out.push('u');
                out.push('e');
                proof {
                    assert(out@ =~= old(out)@ + "true"@);
                }
            } else {
                out.push('f');
                out.push('a');
                out.push('l');
                out.push('s');
                out.push('e');
                proof {
                    assert(out@ =~= old(out)@ + "false"@);
                }
            }
        },
        Value::Int(n) => {
            let cs = crate::index::int_to_string(*n);
            let ds = str_to_chars(cs.as_str());
            let mut k: usize = 0;
            while k < ds.len()
                invariant
                    0 <= k <= ds@.len(),
                    ds@ == spec_int_str((*n) as int),
                    out@ == old(out)@ + ds@.take(k as int),
                decreases ds@.len() - k,
            {
                proof {
                    assert(ds@.take(0) =~= Seq::<char>::empty());
                }
                out.push(ds[k]);
                proof {
                    assert(out@ =~= old(out)@ + ds@.take(k + 1));
                }
                k += 1;
            }
            proof {
                assert(ds@.take(ds@.len() as int) =~= ds@);
            }
        },
        Value::Str(s) => {
            out.push('"');
            render_escaped(s, out);
            out.push('"');
            proof {
                assert(out@ =~= old(out)@ + spec_render(v@));
            }
        },
        Value::Arr(items) => {
            out.push('[');
            let mut i: usize = 0;
            while i < items.len()
                invariant
                    0 <= i <= items@.len(),
                    out@ == old(out)@ + seq!['['] + spec_rendered_prefix_items(
                        jvs_of(items@),
                        i as int,
                    ),
                decreases items@.len() - i,
            {
                proof {
                    let ghost g = *v;
                    assert(decreases_to!(g => g->Arr_0));
                    assert(decreases_to!(g->Arr_0 => g->Arr_0@));
                    assert(decreases_to!(g->Arr_0@ => g->Arr_0@[i as int]));
                }
                if i > 0 {
                    out.push(',');
                }
                render_value(&items[i], out);
                proof {
                    lemma_rendered_prefix_items_snoc(jvs_of(items@), i as int);
                    assert(out@ =~= old(out)@ + seq!['['] + spec_rendered_prefix_items(
                        jvs_of(items@),
                        i + 1,
                    ));
                }
                i += 1;
            }
            out.push(']');
            proof {
                lemma_rendered_prefix_items_full(jvs_of(items@));
                assert(out@ =~= old(out)@ + spec_render(v@));
            }
        },
        Value::Obj(pairs) => {
            out.push('{');
            let mut i: usize = 0;
            while i < pairs.len()
                invariant
                    0 <= i <= pairs@.len(),
                    out@ == old(out)@ + seq!['{'] + spec_rendered_prefix_pairs(
                        pairs_of(pairs@),
                        i as int,
                    ),
                decreases pairs@.len() - i,
            {
                proof {
                    let ghost g = *v;
                    assert(decreases_to!(g => g->Obj_0));
                    assert(decreases_to!(g->Obj_0 => g->Obj_0@));
                    assert(decreases_to!(g->Obj_0@ => g->Obj_0@[i as int]));
                    assert(decreases_to!(g->Obj_0@[i as int] => g->Obj_0@[i as int].1));
                }
                if i > 0 {
                    out.push(',');
                }
                out.push('"');
                render_escaped(&pairs[i].0, out);
                out.push('"');
                out.push(':');
                render_value(&pairs[i].1, out);
                proof {
                    lemma_rendered_prefix_pairs_snoc(pairs_of(pairs@), i as int);
                    assert(pairs_of(pairs@)[i as int] == (pairs@[i as int].0@, pairs@[
                        i as int].1@));
                    assert(out@ =~= old(out)@ + seq!['{'] + spec_rendered_prefix_pairs(
                        pairs_of(pairs@),
                        i + 1,
                    ));
                }
                i += 1;
            }
            out.push('}');
            proof {
                lemma_rendered_prefix_pairs_full(pairs_of(pairs@));
                assert(out@ =~= old(out)@ + spec_render(v@));
            }
        },
    }
}

/// The rendered body of the first `n` array elements.
pub open spec fn spec_rendered_prefix_items(items: Seq<Jv>, n: int) -> Seq<char>
    decreases n,
{
    if n <= 0 {
        Seq::empty()
    } else if n == 1 {
        spec_render(items[0])
    } else {
        spec_rendered_prefix_items(items, n - 1) + seq![','] + spec_render(items[n - 1])
    }
}

proof fn lemma_rendered_prefix_items_snoc(items: Seq<Jv>, i: int)
    requires
        0 <= i < items.len(),
    ensures
        spec_rendered_prefix_items(items, i + 1) == if i == 0 {
            spec_render(items[0])
        } else {
            spec_rendered_prefix_items(items, i) + seq![','] + spec_render(items[i])
        },
{
}

/// The whole prefix body is the rendered array body.
proof fn lemma_rendered_prefix_items_full(items: Seq<Jv>)
    ensures
        spec_rendered_prefix_items(items, items.len() as int) == spec_render_items(items),
    decreases items.len(),
{
    if items.len() > 1 {
        lemma_rendered_prefix_items_full(items.drop_first());
        assert forall|n: int| 1 <= n <= items.drop_first().len() implies spec_rendered_prefix_items(
            items,
            n + 1,
        ) == spec_render(items[0]) + seq![','] + spec_rendered_prefix_items(
            items.drop_first(),
            n,
        ) by {
            lemma_rendered_prefix_items_shift(items, n);
        }
        assert(spec_rendered_prefix_items(items, items.len() as int) =~= spec_render(items[0])
            + seq![','] + spec_render_items(items.drop_first()));
    }
}

proof fn lemma_rendered_prefix_items_shift(items: Seq<Jv>, n: int)
    requires
        1 <= n <= items.len() - 1,
    ensures
        spec_rendered_prefix_items(items, n + 1) == spec_render(items[0]) + seq![',']
            + spec_rendered_prefix_items(items.drop_first(), n),
    decreases n,
{
    if n == 1 {
        assert(items.drop_first()[0] == items[1]);
        assert(spec_rendered_prefix_items(items, 2) == spec_rendered_prefix_items(items, 1) + seq![
            ','
        ] + spec_render(items[1]));
    } else {
        lemma_rendered_prefix_items_shift(items, n - 1);
        assert(items.drop_first()[n - 1] == items[n]);
        assert(spec_rendered_prefix_items(items, n + 1) =~= spec_render(items[0]) + seq![',']
            + spec_rendered_prefix_items(items.drop_first(), n));
    }
}

/// The rendered body of the first `n` object pairs.
pub open spec fn spec_rendered_prefix_pairs(pairs: Seq<(Seq<char>, Jv)>, n: int) -> Seq<char>
    decreases n,
{
    if n <= 0 {
        Seq::empty()
    } else {
        let one = seq!['"'] + spec_escape(pairs[n - 1].0) + seq!['"'] + seq![':'] + spec_render(
            pairs[n - 1].1,
        );
        if n == 1 {
            one
        } else {
            spec_rendered_prefix_pairs(pairs, n - 1) + seq![','] + one
        }
    }
}

proof fn lemma_rendered_prefix_pairs_snoc(pairs: Seq<(Seq<char>, Jv)>, i: int)
    requires
        0 <= i < pairs.len(),
    ensures
        spec_rendered_prefix_pairs(pairs, i + 1) == if i == 0 {
            seq!['"'] + spec_escape(pairs[0].0) + seq!['"'] + seq![':'] + spec_render(pairs[0].1)
        } else {
            spec_rendered_prefix_pairs(pairs, i) + seq![','] + (seq!['"'] + spec_escape(
                pairs[i].0,
            ) + seq!['"'] + seq![':'] + spec_render(pairs[i].1))
        },
{
}

/// The whole prefix body is the rendered object body.
proof fn lemma_rendered_prefix_pairs_full(pairs: Seq<(Seq<char>, Jv)>)
    ensures
        spec_rendered_prefix_pairs(pairs, pairs.len() as int) == spec_render_pairs(pairs),
    decreases pairs.len(),
{
    if pairs.len() > 1 {
        lemma_rendered_prefix_pairs_full(pairs.drop_first());
        assert forall|n: int| 1 <= n <= pairs.drop_first().len() implies spec_rendered_prefix_pairs(
            pairs,
            n + 1,
        ) == (seq!['"'] + spec_escape(pairs[0].0) + seq!['"'] + seq![':'] + spec_render(pairs[0].1))
            + seq![','] + spec_rendered_prefix_pairs(pairs.drop_first(), n) by {
            lemma_rendered_prefix_pairs_shift(pairs, n);
        }
        assert(spec_rendered_prefix_pairs(pairs, pairs.len() as int) =~= spec_render_pairs(pairs));
    }
}

proof fn lemma_rendered_prefix_pairs_shift(pairs: Seq<(Seq<char>, Jv)>, n: int)
    requires
        1 <= n <= pairs.len() - 1,
    ensures
        spec_rendered_prefix_pairs(pairs, n + 1) == (seq!['"'] + spec_escape(pairs[0].0) + seq!['"']
            + seq![':'] + spec_render(pairs[0].1)) + seq![','] + spec_rendered_prefix_pairs(
            pairs.drop_first(),
            n,
        ),
    decreases n,
{
    if n == 1 {
        assert(pairs.drop_first()[0] == pairs[1]);
        assert(spec_rendered_prefix_pairs(pairs, 1) == seq!['"'] + spec_escape(pairs[0].0)
            + seq!['"'] + seq![':'] + spec_render(pairs[0].1));
        assert(spec_rendered_prefix_pairs(pairs.drop_first(), 1) == seq!['"'] + spec_escape(
            pairs[1].0,
        ) + seq!['"'] + seq![':'] + spec_render(pairs[1].1));
        assert(spec_rendered_prefix_pairs(pairs, 2) =~= (seq!['"'] + spec_escape(pairs[0].0)
            + seq!['"'] + seq![':'] + spec_render(pairs[0].1)) + seq![',']
            + spec_rendered_prefix_pairs(pairs.drop_first(), 1));
    } else {
        lemma_rendered_prefix_pairs_shift(pairs, n - 1);
        assert(pairs.drop_first()[n - 1] == pairs[n]);
        assert(spec_rendered_prefix_pairs(pairs, n + 1) =~= (seq!['"'] + spec_escape(pairs[0].0)
            + seq!['"'] + seq![':'] + spec_render(pairs[0].1)) + seq![',']
            + spec_rendered_prefix_pairs(pairs.drop_first(), n));
    }
}

/// One parsing step: the value starting at `i` and the position after it,
/// or `None` when the text is not a value of the format.
#[verifier::loop_isolation(false)]
fn parse_at(s: &Vec<char>, i: usize) -> (r: Option<(Value, usize)>)
    requires
        i <= s@.len(),
    ensures
        r matches Some(p) ==> i < p.1 <= s@.len(),
        forall|w: Jv|
            scalar_rendering(w, s@.skip(i as int)) ==> (r matches Some(p) && p.0@ == w && p.1
                == s@.len()),
    decreases s@.len() - i,
{
    broadcast use crate::nums::lemma_dec_roundtrip;

    proof {
        reveal_strlit("null");
        reveal_strlit("true");
        reveal_strlit("false");
    }
    let ghost tail = s@.skip(i as int);
    let n = s.len();
    let mut j = skip_ws(s, i);
    proof {
        assert forall|w: Jv| scalar_rendering(w, tail) implies (i < s@.len() && j == i && (match w {
            Jv::Null => s@.len() - i == 4 && s@[i as int] == 'n' && s@[i + 1] == 'u' && s@[i + 2]
                == 'l' && s@[i + 3] == 'l',
            Jv::Bool(b) => if b {
                s@.len() - i == 4 && s@[i as int] == 't' && s@[i + 1] == 'r' && s@[i + 2] == 'u'
                    && s@[i + 3] == 'e'
            } else {
                s@.len() - i == 5 && s@[i as int] == 'f' && s@[i + 1] == 'a' && s@[i + 2] == 'l'
                    && s@[i + 3] == 's' && s@[i + 4] == 'e'
            },
            Jv::Int(nn) => if nn < 0 {
                s@[i as int] == '-'
            } else {
                crate::nums::is_digit(s@[i as int])
            },
            Jv::Str(_) => s@[i as int] == '"',
            _ => false,
        })) by {
            reveal_strlit("null");
            reveal_strlit("true");
            reveal_strlit("false");
            assert(tail.len() == s@.len() - i);
            match w {
                Jv::Null => {
                    assert(tail == "null"@);
                    assert(tail.len() == 4);
                    assert(s@[i as int] == tail[0] && s@[i + 1] == tail[1] && s@[i + 2] == tail[2]
                        && s@[i + 3] == tail[3]);
                },
                Jv::Bool(b) => {
                    if b {
                        assert(tail == "true"@);
                        assert(s@[i as int] == tail[0] && s@[i + 1] == tail[1] && s@[i + 2]
                            == tail[2] && s@[i + 3] == tail[3]);
                    } else {
                        assert(tail == "false"@);
                        assert(s@[i as int] == tail[0] && s@[i + 1] == tail[1] && s@[i + 2]
                            == tail[2] && s@[i + 3] == tail[3] && s@[i + 4] == tail[4]);
                    }
                },
                Jv::Int(nn) => {
                    if nn < 0 {
                        assert(tail == seq!['-'] + spec_dec((-nn) as nat));
                        assert(tail[0] == '-');
                        assert(s@[i as int] == tail[0]);
                    } else {
                        assert(tail == spec_dec(nn as nat));
                        assert(crate::nums::is_dec(tail));
                        assert(crate::nums::is_digit(tail[0]));
                        assert(s@[i as int] == tail[0]);
                    }
                },
                Jv::Str(t) => {
                    assert(tail == seq!['"'] + spec_escape(t) + seq!['"']);
                    assert(tail[0] == '"');
                    assert(s@[i as int] == tail[0]);
                },
                _ => {},
            }
            assert(tail.len() > 0 && !is_blank(s@[i as int]));
            assert(j == i) by {
                if j > i {
                    assert(is_blank(s@[i as int]));
                }
            }
        }
    }
    if j >= n {
        return None;
    }
    let c = s[j];
    if c == 'n' {
        if n - j >= 4 && s[j + 1] == 'u' && s[j + 2] == 'l' && s[j + 3] == 'l' {
            Some((Value::Null, j + 4))
        } else {
            None
        }
    } else if c == 't' {
        if n - j >= 4 && s[j + 1] == 'r' && s[j + 2] == 'u' && s[j + 3] == 'e' {
            Some((Value::Bool(true), j + 4))
        } else {
            None
        }
    } else if c == 'f' {
        if n - j >= 5 && s[j + 1] == 'a' && s[j + 2] == 'l' && s[j + 3] == 's' && s[j + 4] == 'e' {
            Some((Value::Bool(false), j + 5))
        } else {
            None
        }
    } else if c == '-' || ('0' <= c && c <= '9') {
        let neg = c == '-';
        let mut k = if neg {
            j + 1
        } else {
            j
        };
        let start = k;
        let mut digits: Vec<char> = Vec::new();
        while k < n && '0' <= s[k] && s[k] <= '9'
            invariant
                start <= k <= n,
                digits@.len() == k - start,
                digits@ == s@.subrange(start as int, k as int),
            decreases n - k,
        {
            digits.push(s[k]);
            k += 1;
            proof {
                assert(digits@ =~= s@.subrange(start as int, k as int));
            }
        }
        proof {
            assert(k == n || !('0' <= s@[k as int] <= '9'));
            assert forall|w: Jv| scalar_rendering(w, tail) implies (w matches Jv::Int(nn) && {
                let mag = (if nn < 0 {
                    -nn
                } else {
                    nn
                }) as nat;
                &&& neg == (nn < 0)
                &&& start as int == i + (if nn < 0 {
                    1int
                } else {
                    0int
                })
                &&& k == n
                &&& digits@ == spec_dec(mag)
                &&& crate::nums::is_dec(digits@)
                &&& crate::nums::dec_val(digits@) == mag
                &&& mag <= (i64::MAX as u64) + 1
                &&& (nn >= 0 ==> mag <= i64::MAX as u64)
                &&& (nn == i64::MIN ==> mag == (i64::MAX as u64) + 1)
                &&& (nn < 0 && nn != i64::MIN ==> mag <= i64::MAX as u64)
            }) by {
                match w {
                    Jv::Int(nn) => {
                        let mag = (if nn < 0 {
                            -nn
                        } else {
                            nn
                        }) as nat;
                        let ds = spec_dec(mag);
                        assert(crate::nums::is_dec(ds) && crate::nums::dec_val(ds) == mag);
                        if nn < 0 {
                            assert(tail == seq!['-'] + ds);
                            assert(s@[i as int] == tail[0] && tail[0] == '-');
                            assert(neg);
                            assert(forall|t: int|
                                start <= t < s@.len() ==> s@[t] == tail[t - i] && tail[t - i]
                                    == ds[t - start]);
                        } else {
                            assert(tail == ds);
                            assert(!crate::nums::is_digit('-'));
                            assert(!neg);
                            assert(forall|t: int|
                                start <= t < s@.len() ==> s@[t] == tail[t - i] && tail[t - i]
                                    == ds[t - start]);
                        }
                        assert(s@.len() - start == ds.len());
                        assert forall|t: int|
                            start <= t < s@.len() implies '0' <= #[trigger] s@[t] <= '9' by {
                            assert(crate::nums::is_digit(ds[t - start]));
                        }
                        assert(k == n) by {
                            if k < n {
                                assert('0' <= s@[k as int] <= '9');
                            }
                        }
                        assert(digits@ =~= ds);
                    },
                    _ => {
                        assert(s@[i as int] == c);
                    },
                }
            }
        }
        if k == start {
            return None;
        }
        match crate::nums::parse_u64(&digits) {
            None => None,
            Some(m) => {
                if neg {
                    if m <= (i64::MAX as u64) + 1 {
                        let v: i64 = if m == (i64::MAX as u64) + 1 {
                            i64::MIN
                        } else {
                            -(m as i64)
                        };
                        Some((Value::Int(v), k))
                    } else {
                        None
                    }
                } else {
                    if m <= i64::MAX as u64 {
                        Some((Value::Int(m as i64), k))
                    } else {
                        None
                    }
                }
            },
        }
    } else if c == '"' {
        proof {
            assert forall|w: Jv| scalar_rendering(w, tail) implies (w matches Jv::Str(t)
                && str_rendering(t, s@.skip(j as int))) by {
                match w {
                    Jv::Str(t) => {
                        assert(s@.skip(j as int) == tail);
                    },
                    _ => {
                        assert(s@[i as int] == '"');
                    },
                }
            }
        }
        match parse_string_at(s, j) {
            Some((t, k)) => Some((Value::Str(t), k)),
            None => None,
        }
    } else if c == '[' {
        let mut items: Vec<Value> = Vec::new();
        let mut k = skip_ws(s, j + 1);
        if k < n && s[k] == ']' {
            return Some((Value::Arr(items), k + 1));
        }
        loop
            invariant
                j < k <= n,
                n == s@.len(),
            decreases n - k,
        {
            match parse_at(s, k) {
                None => {
                    return None;
                },
                Some((v, k2)) => {
                    items.push(v);
                    let k3 = skip_ws(s, k2);
                    if k3 < n && s[k3] == ',' {
                        let k4 = skip_ws(s, k3 + 1);
                        if k4 <= k {
                            return None;
                        }
                        k = k4;
                    } else if k3 < n && s[k3] == ']' {
                        return Some((Value::Arr(items), k3 + 1));
                    } else {
                        return None;
                    }
                },
            }
        }
    } else if c == '{' {
        let mut pairs: Vec<(String, Value)> = Vec::new();
        let mut k = skip_ws(s, j + 1);
        if k < n && s[k] == '}' {
            return Some((Value::Obj(pairs), k + 1));
        }
        loop
            invariant
                j < k <= n,
                n == s@.len(),
            decreases n - k,
        {
            if k >= n || s[k] != '"' {
                return None;
            }
            match parse_string_at(s, k) {
                None => {
                    return None;
                },
                Some((key, k2)) => {
                    let k3 = skip_ws(s, k2);
                    if k3 >= n || s[k3] != ':' {
                        return None;
                    }
                    match parse_at(s, k3 + 1) {
                        None => {
                            return None;
                        },
                        Some((v, k4)) => {
                            pairs.push((key, v));
                            let k5 = skip_ws(s, k4);
                            if k5 < n && s[k5] == ',' {
                                let k6 = skip_ws(s, k5 + 1);
                                if k6 <= k {
                                    return None;
                                }
                                k = k6;
                            } else if k5 < n && s[k5] == '}' {
                                return Some((Value::Obj(pairs), k5 + 1));
                            } else {
                                return None;
                            }
                        },
                    }
                },
            }
        }
    } else {
        None
    }
}

/// The first position at or after `i` that holds no blank character.
#[verifier::loop_isolation(false)]
fn skip_ws(s: &Vec<char>, i: usize) -> (r: usize)
    requires
        i <= s@.len(),
    ensures
        i <= r <= s@.len(),
        forall|k: int| i <= k < r ==> is_blank(#[trigger] s@[k]),
        r == s@.len() || !is_blank(s@[r as int]),
{
    let mut j = i;
    while j < s.len() && (s[j] == ' ' || s[j] == '\t' || s[j] == '\n' || s[j] == '\r')
        invariant
            i <= j <= s@.len(),
            forall|k: int| i <= k < j ==> is_blank(#[trigger] s@[k]),
        decreases s@.len() - j,
    {
        j += 1;
    }
    j
}

/// A blank character the format allows between tokens.
pub open spec fn is_blank(c: char) -> bool {
    c == ' ' || c == '\t' || c == '\n' || c == '\r'
}

/// `w` is a scalar whose number, if any, is machine-representable, and `t`
/// is its rendered text.  (Completeness for array and object renderings is
/// not yet stated.)
pub open spec fn scalar_rendering(w: Jv, t: Seq<char>) -> bool {
    &&& t == spec_render(w)
    &&& match w {
        Jv::Null => true,
        Jv::Bool(_) => true,
        Jv::Int(n) => i64::MIN <= n <= i64::MAX,
        Jv::Str(_) => true,
        _ => false,
    }
}

/// `u` is exactly the quoted, escaped rendering of the text `t`.
pub open spec fn str_rendering(t: Seq<char>, u: Seq<char>) -> bool {
    u == seq!['"'] + spec_escape(t) + seq!['"']
}

/// A quoted string literal starting at `i`, unescaped.  On the exact
/// rendering of a text, parsing succeeds and inverts the escaping.
#[verifier::loop_isolation(false)]
#[verifier::rlimit(60)]
fn parse_string_at(s: &Vec<char>, i: usize) -> (r: Option<(String, usize)>)
    requires
        i < s@.len(),
    ensures
        r matches Some(p) ==> i < p.1 <= s@.len(),
        forall|t: Seq<char>|
            str_rendering(t, s@.skip(i as int)) ==> (r matches Some(p) && p.0@ == t && p.1
                == s@.len()),
{
    let ghost u = s@.skip(i as int);
    let ghost hast = exists|t: Seq<char>| str_rendering(t, u);
    let ghost t0: Seq<char> = if hast {
        choose|t: Seq<char>| str_rendering(t, u)
    } else {
        Seq::empty()
    };
    proof {
        if hast {
            assert forall|t: Seq<char>| str_rendering(t, u) implies t == t0 by {
                assert(spec_escape(t).len() == u.len() - 2);
                assert(spec_escape(t0).len() == u.len() - 2);
                assert(spec_escape(t) =~= spec_escape(t0)) by {
                    assert(forall|x: int|
                        0 <= x < u.len() - 2 ==> #[trigger] spec_escape(t)[x] == u[1 + x]);
                    assert(forall|x: int|
                        0 <= x < u.len() - 2 ==> #[trigger] spec_escape(t0)[x] == u[1 + x]);
                }
                lemma_escape_injective(t, t0);
            }
            assert(forall|x: int| 0 <= x < u.len() ==> #[trigger] u[x] == s@[i + x]);
            assert(u[0] == '"');
        }
    }
    let n = s.len();
    if s[i] != '"' {
        proof {
            assert(!hast);
        }
        return None;
    }
    let mut out: Vec<char> = Vec::new();
    let mut k = i + 1;
    let ghost mut m: int = 0;
    proof {
        if hast {
            assert(spec_escape(t0.take(0)) =~= Seq::<char>::empty());
        }
    }
    while k < n
        invariant
            i < k <= n,
            n == s@.len(),
            hast ==> {
                &&& 0 <= m <= t0.len()
                &&& out@ == t0.take(m)
                &&& k == i + 1 + spec_escape(t0.take(m)).len()
            },
        decreases n - k,
    {
        proof {
            if hast {
                assert(t0 =~= t0.take(m) + t0.skip(m));
                lemma_escape_cat(t0.take(m), t0.skip(m));
                assert(spec_escape(t0) == spec_escape(t0.take(m)) + spec_escape(t0.skip(m)));
                if m < t0.len() {
                    assert(t0.skip(m)[0] == t0[m]);
                    assert(spec_escape(t0.skip(m)) == esc_char(t0[m]) + spec_escape(
                        t0.skip(m).drop_first(),
                    ));
                    assert(t0.skip(m).drop_first() =~= t0.skip(m + 1));
                    assert(s@[k as int] == u[k - i]);
                    assert(u[k - i] == spec_escape(t0)[k - i - 1]);
                    assert(spec_escape(t0)[k - i - 1] == esc_char(t0[m])[0]);
                } else {
                    assert(t0.take(m) =~= t0);
                    assert(k == i + 1 + spec_escape(t0).len());
                    assert(s@[k as int] == u[k - i]);
                    assert(u[k - i] == '"');
                }
            }
        }
        let c = s[k];
        if c == '"' {
            proof {
                if hast {
                    if m < t0.len() {
                        assert(esc_char(t0[m])[0] != '"');
                    }
                    assert(m == t0.len());
                    assert(out@ =~= t0);
                    assert(t0.take(m) =~= t0);
                    assert(k == i + 1 + spec_escape(t0).len());
                    assert(u.len() == s@.len() - i);
                    assert(u.len() == 2 + spec_escape(t0).len());
                    assert(k + 1 == s@.len());
                }
            }
            return Some((chars_to_string(&out), k + 1));
        } else if c == '\\' {
            proof {
                if hast {
                    assert(m < t0.len());
                    assert(esc_char(t0[m])[0] == '\\');
                    assert(t0[m] == '"' || t0[m] == '\\');
                    assert(esc_char(t0[m]).len() == 2);
                    assert(spec_escape(t0).len() == spec_escape(t0.take(m)).len() + spec_escape(
                        t0.skip(m),
                    ).len());
                    assert(spec_escape(t0.skip(m)).len() == 2 + spec_escape(t0.skip(m + 1)).len());
                    assert(u.len() == s@.len() - i);
                    assert(u.len() == 2 + spec_escape(t0).len());
                    assert(k + 1 < n);
                    assert(s@[k + 1] == u[k + 1 - i]);
                    assert(u[k + 1 - i] == spec_escape(t0)[k - i]);
                    assert(spec_escape(t0)[k - i] == esc_char(t0[m])[1]);
                    assert(esc_char(t0[m])[1] == t0[m]);
                }
            }
            if k + 1 < n && (s[k + 1] == '"' || s[k + 1] == '\\') {
                out.push(s[k + 1]);
                proof {
                    if hast {
                        lemma_escape_snoc(t0.take(m), t0[m]);
                        assert(t0.take(m).push(t0[m]) =~= t0.take(m + 1));
                        assert(out@ =~= t0.take(m + 1));
                        m = m + 1;
                    }
                }
                k += 2;
            } else {
                proof {
                    assert(!hast);
                }
                return None;
            }
        } else {
            proof {
                if hast {
                    assert(m < t0.len());
                    assert(esc_char(t0[m])[0] == c);
                    assert(!(t0[m] == '"' || t0[m] == '\\'));
                    assert(c == t0[m]);
                    lemma_escape_snoc(t0.take(m), t0[m]);
                    assert(t0.take(m).push(t0[m]) =~= t0.take(m + 1));
                }
            }
            out.push(c);
            proof {
                if hast {
                    assert(out@ =~= t0.take(m + 1));
                    m = m + 1;
                }
            }
            k += 1;
        }
    }
    proof {
        if hast {
            assert(spec_escape(t0.take(m)).len() <= spec_escape(t0).len()) by {
                assert(t0 =~= t0.take(m) + t0.skip(m));
                lemma_escape_cat(t0.take(m), t0.skip(m));
            }
            assert(k <= i + 1 + spec_escape(t0).len());
            assert(u.len() == 2 + spec_escape(t0).len());
            assert(false);
        }
    }
    None
}

/// Reads a complete value from text: the whole input must be one value of
/// the format, with distinct keys in every object.  On the exact rendering
/// of a scalar value, parsing succeeds and inverts the rendering.
pub fn parse_value(s: &str) -> (r: Option<Value>)
    ensures
        r matches Some(v) ==> crate::value::wf_jv(v@),
        forall|w: Jv| scalar_rendering(w, s@) ==> (r matches Some(v) && v@ == w),
{
    let cs = str_to_chars(s);
    let parsed = parse_at(&cs, 0);
    proof {
        assert(cs@.skip(0) =~= cs@);
        assert forall|w: Jv| scalar_rendering(w, s@) implies scalar_rendering(w, cs@.skip(0)) by {}
        assert forall|w: Jv| scalar_rendering(w, s@) implies (parsed matches Some(p) && p.0@ == w
            && p.1 == cs@.len() && crate::value::wf_jv(p.0@)) by {
            assert(scalar_rendering(w, cs@.skip(0)));
        }
    }
    match parsed {
        None => None,
        Some((v, j)) => {
            let k = skip_ws(&cs, j);
            if k != cs.len() {
                return None;
            }
            if v.is_wf() {
                Some(v)
            } else {
                None
            }
        },
    }
}

/// The rendered text of a value, as a string.
pub fn render_to_string(v: &Value) -> (r: String)
    ensures
        r@ == spec_render(v@),
{
    let mut out: Vec<char> = Vec::new();
    render_value(v, &mut out);
    proof {
        assert(out@ =~= spec_render(v@));
    }
    chars_to_string(&out)
}

} // verus!
