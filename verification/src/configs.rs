use vstd::prelude::*;

use crate::errors::ConfigError;
use crate::settings::{
    av_views, conflict_pair, effective_of, flat_all, has_conflict, kindn, layer_views, resolve,
    AnnotatedValue, AnnotatedView, ConfigLayer, ConfigValue, EffectiveSettings, LayerSource,
    LayerView, ValueView,
};

verus! {

/// One decimal digit as text.
pub open spec fn digit_str(d: int) -> Seq<char> {
    if d == 0 {
        "0"@
    } else if d == 1 {
        "1"@
    } else if d == 2 {
        "2"@
    } else if d == 3 {
        "3"@
    } else if d == 4 {
        "4"@
    } else if d == 5 {
        "5"@
    } else if d == 6 {
        "6"@
    } else if d == 7 {
        "7"@
    } else if d == 8 {
        "8"@
    } else {
        "9"@
    }
}

/// Decimal rendering of a non-negative number.
pub open spec fn dec_spec(n: int) -> Seq<char>
    decreases n,
{
    if n < 10 {
        digit_str(n)
    } else {
        dec_spec(n / 10) + digit_str(n % 10)
    }
}

/// Decimal rendering of a signed number.
pub open spec fn int_str(i: int) -> Seq<char> {
    if i >= 0 {
        dec_spec(i)
    } else {
        "-"@ + dec_spec(-i)
    }
}

/// A character with quote and backslash escaped.
pub open spec fn esc_char(c: char) -> Seq<char> {
    if c == '"' || c == '\\' {
        seq!['\\', c]
    } else {
        seq![c]
    }
}

/// The first `upto` characters, escaped.
pub open spec fn escaped(s: Seq<char>, upto: int) -> Seq<char>
    decreases upto,
{
    if upto <= 0 {
        Seq::empty()
    } else {
        escaped(s, upto - 1) + esc_char(s[upto - 1])
    }
}

/// A string value in its canonical quoted form, embedded quotes and
/// backslashes escaped so the text is unambiguous.
pub open spec fn quoted(s: Seq<char>) -> Seq<char> {
    "\""@ + escaped(s, s.len() as int) + "\""@
}

/// The elements of a list value, quoted and comma-separated.
pub open spec fn list_inner(xs: Seq<Seq<char>>) -> Seq<char>
    decreases xs.len(),
{
    if xs.len() == 0 {
        Seq::empty()
    } else if xs.len() == 1 {
        quoted(xs[0])
    } else {
        list_inner(xs.drop_last()) + ", "@ + quoted(xs.last())
    }
}

/// Canonical textual form of a configuration value, independent of its
/// structured type.
pub open spec fn render_spec(v: ValueView) -> Seq<char> {
    match v {
        ValueView::Str(s) => quoted(s),
        ValueView::Int(i) => int_str(i),
        ValueView::Bool(b) => if b {
            "true"@
        } else {
            "false"@
        },
        ValueView::List(xs) => "["@ + list_inner(xs) + "]"@,
    }
}

fn digit_str_exec(d: u64) -> (r: String)
    requires
        d < 10,
    ensures
        r@ == digit_str(d as int),
{
    if d == 0 {
        String::from_str("0")
    } else if d == 1 {
        String::from_str("1")
    } else if d == 2 {
        String::from_str("2")
    } else if d == 3 {
        String::from_str("3")
    } else if d == 4 {
        String::from_str("4")
    } else if d == 5 {
        String::from_str("5")
    } else if d == 6 {
        String::from_str("6")
    } else if d == 7 {
        String::from_str("7")
    } else if d == 8 {
        String::from_str("8")
    } else {
        String::from_str("9")
    }
}

fn dec_str(n: u64) -> (r: String)
    ensures
        r@ == dec_spec(n as int),
    decreases n,
{
    if n < 10 {
        digit_str_exec(n)
    } else {
        let mut s = dec_str(n / 10);
        let d = digit_str_exec(n % 10);
        s.append(d.as_str());
        s
    }
}

/// Appends the text with quote and backslash escaped.
fn append_escaped(out: &mut String, s: &str)
    ensures
        final(out)@ == old(out)@ + escaped(s@, s@.len() as int),
{
    let n = s.unicode_len();
    let mut i: usize = 0;
    proof {
        assert(out@ =~= out@ + escaped(s@, 0));
    }
    while i < n
        invariant
            i <= n,
            n == s@.len(),
            out@ == old(out)@ + escaped(s@, i as int),
        decreases n - i,
    {
        let ghost prev = out@;
        let c = s.get_char(i);
        if c == '"' {
            out.append("\\\"");
            proof {
                reveal_strlit("\\\"");
                assert("\\\""@ =~= seq!['\\', '"']);
                assert(out@ =~= prev + esc_char(c));
            }
        } else if c == '\\' {
            out.append("\\\\");
            proof {
                reveal_strlit("\\\\");
                assert("\\\\"@ =~= seq!['\\', '\\']);
                assert(out@ =~= prev + esc_char(c));
            }
        } else {
            let piece = s.substring_char(i, i + 1);
            out.append(piece);
            proof {
                assert(piece@ =~= seq![c]);
                assert(out@ =~= prev + esc_char(c));
            }
        }
        proof {
            assert(out@ =~= old(out)@ + escaped(s@, i + 1));
        }
        i += 1;
    }
}

/// Renders a value as its canonical text: strings quoted with embedded
/// quotes and backslashes escaped, numbers in decimal, booleans as words,
/// lists bracketed with quoted elements.
pub fn render_value(v: &ConfigValue) -> (r: String)
    ensures
        r@ == render_spec(v@),
{
    match v {
        ConfigValue::Str(s) => {
            let mut out = String::from_str("\"");
            append_escaped(&mut out, s.as_str());
            out.append("\"");
            out
        },
        ConfigValue::Int(i) => {
            let i = *i;
            if i >= 0 {
                dec_str(i as u64)
            } else {
                proof {
                    assert(0 <= -(i as i128) < 0x1_0000_0000_0000_0000i128);
                }
                let m: u64 = (-(i as i128)) as u64;
                let s = dec_str(m);
                let mut out = String::from_str("-");
                out.append(s.as_str());
                out
            }
        },
        ConfigValue::Bool(b) => {
            if *b {
                String::from_str("true")
            } else {
                String::from_str("false")
            }
        },
        ConfigValue::List(xs) => {
            let ghost vs = xs@.map_values(|x: String| x@);
            let mut out = String::from_str("[");
            let mut k: usize = 0;
            while k < xs.len()
                invariant
                    k <= xs.len(),
                    vs == xs@.map_values(|x: String| x@),
                    out@ == "["@ + list_inner(vs.take(k as int)),
                decreases xs.len() - k,
            {
                if k > 0 {
                    out.append(", ");
                }
                out.append("\"");
                append_escaped(&mut out, xs[k].as_str());
                out.append("\"");
                proof {
                    assert(vs.take(k + 1).drop_last() =~= vs.take(k as int));
                    assert(vs.take(k + 1).last() == vs[k as int]);
                    if k == 0 {
                        assert(list_inner(vs.take(1)) == quoted(vs[0]));
                        assert(out@ =~= "["@ + list_inner(vs.take(k + 1)));
                    } else {
                        assert(list_inner(vs.take(k + 1)) == list_inner(vs.take(k as int)) + ", "@
                            + quoted(vs[k as int]));
                        assert(out@ =~= "["@ + list_inner(vs.take(k + 1)));
                    }
                }
                k += 1;
            }
            proof {
                assert(vs.take(xs@.len() as int) =~= vs);
            }
            out.append("]");
            out
        },
    }
}

/// Whether two values are equal, compared by content.
pub fn value_eqv(a: &ConfigValue, b: &ConfigValue) -> (r: bool)
    ensures
        r == (a@ == b@),
{
    match (a, b) {
        (ConfigValue::Str(x), ConfigValue::Str(y)) => *x == *y,
        (ConfigValue::Int(x), ConfigValue::Int(y)) => *x == *y,
        (ConfigValue::Bool(x), ConfigValue::Bool(y)) => *x == *y,
        (ConfigValue::List(x), ConfigValue::List(y)) => {
            let ghost xv = x@.map_values(|s: String| s@);
            let ghost yv = y@.map_values(|s: String| s@);
            if x.len() != y.len() {
                proof {
                    assert(xv.len() != yv.len());
                }
                false
            } else {
                let mut k: usize = 0;
                while k < x.len()
                    invariant
                        k <= x.len(),
                        x@.len() == y@.len(),
                        xv == x@.map_values(|s: String| s@),
                        yv == y@.map_values(|s: String| s@),
                        forall|j: int| 0 <= j < k ==> #[trigger] xv[j] == yv[j],
                    decreases x.len() - k,
                {
                    if !(x[k] == y[k]) {
                        proof {
                            assert(xv[k as int] != yv[k as int]);
                        }
                        return false;
                    }
                    k += 1;
                }
                proof {
                    assert(xv =~= yv);
                }
                true
            }
        },
        _ => {
            proof {
                assert(kindn(a@) != kindn(b@));
            }
            false
        },
    }
}

/// An entry belongs to the non-default listing: it is not overridden by a
/// later entry, it does not come from the default layer, and its value does
/// not equal what the default layer gives for the same key path.
pub open spec fn kept_entry(a: Seq<AnnotatedView>, m: int) -> bool {
    &&& !a[m].is_overridden
    &&& !(a[m].source is Default)
    &&& !(exists|d: int|
        0 <= d < a.len() && (#[trigger] a[d]).source is Default && a[d].name == a[m].name
            && a[d].value == a[m].value)
}

/// The non-default entries among the first `upto`, order kept.
pub open spec fn kept(a: Seq<AnnotatedView>, upto: int) -> Seq<AnnotatedView>
    decreases upto,
{
    if upto <= 0 {
        Seq::empty()
    } else {
        kept(a, upto - 1) + (if kept_entry(a, upto - 1) {
            seq![a[upto - 1]]
        } else {
            Seq::empty()
        })
    }
}

/// Every entry that belongs to the listing is in it.
pub proof fn lemma_kept_contains(a: Seq<AnnotatedView>, upto: int, m: int)
    requires
        0 <= m < upto <= a.len(),
        kept_entry(a, m),
    ensures
        kept(a, upto).contains(a[m]),
    decreases upto,
{
    if m == upto - 1 {
        assert(kept(a, upto)[kept(a, upto).len() - 1] == a[m]);
    } else {
        lemma_kept_contains(a, upto - 1, m);
        let j = choose|j: int|
            0 <= j < kept(a, upto - 1).len() && #[trigger] kept(a, upto - 1)[j] == a[m];
        assert(kept(a, upto)[j] == a[m]);
    }
}

/// Everything in the listing is an entry that belongs there.
pub proof fn lemma_kept_sound(a: Seq<AnnotatedView>, upto: int, k: int)
    requires
        0 <= upto <= a.len(),
        0 <= k < kept(a, upto).len(),
    ensures
        exists|m: int| 0 <= m < upto && #[trigger] kept_entry(a, m) && kept(a, upto)[k] == a[m],
    decreases upto,
{
    if upto > 0 {
        if k < kept(a, upto - 1).len() {
            lemma_kept_sound(a, upto - 1, k);
        } else {
            assert(kept_entry(a, upto - 1) && kept(a, upto)[k] == a[upto - 1]);
        }
    }
}

/// Keeps only the values that the configuration introspection reports:
/// effective (not overridden), away from the default layer, and different
/// from the default layer's value for the same key path.
pub fn resolve_configs(settings: &EffectiveSettings) -> (r: Vec<AnnotatedValue>)
    ensures
        av_views(r@) == kept(av_views(settings.values@), settings.values@.len() as int),
{
    let ghost av = av_views(settings.values@);
    let n = settings.values.len();
    let mut out: Vec<AnnotatedValue> = Vec::new();
    let mut m: usize = 0;
    proof {
        assert(av_views(out@) =~= kept(av, 0));
    }
    while m < n
        invariant
            m <= n,
            n == settings.values@.len(),
            av == av_views(settings.values@),
            av_views(out@) == kept(av, m as int),
        decreases n - m,
    {
        let entry = &settings.values[m];
        proof {
            assert(av[m as int] == entry@);
        }
        let mut keep_it = !entry.is_overridden && !(entry.source == LayerSource::Default);
        if keep_it {
            let mut d: usize = 0;
            let mut found = false;
            while d < n
                invariant
                    d <= n,
                    m < n,
                    n == settings.values@.len(),
                    av == av_views(settings.values@),
                    entry == settings.values@[m as int],
                    found == exists|j: int|
                        0 <= j < d && (#[trigger] av[j]).source is Default
                            && av[j].name == av[m as int].name
                            && av[j].value == av[m as int].value,
                decreases n - d,
            {
                let cand = &settings.values[d];
                proof {
                    assert(av[d as int] == cand@);
                }
                if cand.source == LayerSource::Default && cand.name == entry.name && value_eqv(
                    &cand.value,
                    &entry.value,
                ) {
                    found = true;
                }
                d += 1;
            }
            if found {
                keep_it = false;
            }
        }
        proof {
            assert(keep_it == kept_entry(av, m as int));
        }
        let ghost prev = out@;
        if keep_it {
            out.push(AnnotatedValue {
                name: entry.name.clone(),
                value: entry.value.dup(),
                source: entry.source,
                is_overridden: entry.is_overridden,
            });
            proof {
                assert(out@ == prev.push(out@.last()));
                assert(out@.last()@ == av[m as int]);
                assert(av_views(out@) =~= kept(av, m as int) + seq![av[m as int]]);
            }
        }
        proof {
            assert(av_views(out@) =~= kept(av, m + 1));
        }
        m += 1;
    }
    out
}

/// Renders the kept values into (key path, canonical text) rows, order kept.
pub fn configs_to_tuple_list(configs: Vec<AnnotatedValue>) -> (r: Vec<(String, String)>)
    ensures
        r@.len() == configs@.len(),
        forall|k: int|
            0 <= k < configs@.len() ==> (#[trigger] r@[k]).0@ == configs@[k]@.name && r@[k].1@
                == render_spec(configs@[k]@.value),
{
    let mut out: Vec<(String, String)> = Vec::new();
    let mut k: usize = 0;
    while k < configs.len()
        invariant
            k <= configs@.len(),
            out@.len() == k,
            forall|j: int|
                0 <= j < k ==> (#[trigger] out@[j]).0@ == configs@[j]@.name && out@[j].1@
                    == render_spec(configs@[j]@.value),
        decreases configs.len() - k,
    {
        let row = (configs[k].name.clone(), render_value(&configs[k].value));
        out.push(row);
        k += 1;
    }
    out
}

/// The rows that the configuration introspection must return for a layer
/// stack: the non-default, non-overridden values in priority order.
pub open spec fn nondefault_rows(ls: Seq<LayerView>) -> Seq<AnnotatedView> {
    kept(effective_of(ls), effective_of(ls).len() as int)
}

/// Resolves the layer stack and returns only the non-default, non-overridden
/// values, each rendered as its canonical text. A failure is the resolve
/// stage's merge conflict, passed through unchanged.
pub fn get_configs(layers: &Vec<ConfigLayer>) -> (r: Result<Vec<(String, String)>, ConfigError>)
    ensures
        r is Ok <==> !has_conflict(flat_all(layer_views(layers@))),
        r matches Err(e) ==> e matches ConfigError::Merge { key, cause: _ }
            && exists|m1: int, m2: int|
            #[trigger] conflict_pair(flat_all(layer_views(layers@)), m1, m2) && flat_all(
                layer_views(layers@),
            )[m1].1.key == key@,
        r matches Ok(v) ==> {
            &&& v@.len() == nondefault_rows(layer_views(layers@)).len()
            &&& forall|k: int|
                0 <= k < v@.len() ==> (#[trigger] v@[k]).0@ == nondefault_rows(
                    layer_views(layers@),
                )[k].name && v@[k].1@ == render_spec(nondefault_rows(layer_views(layers@))[k].value)
        },
{
    match resolve(layers) {
        Err(e) => Err(e),
        Ok(es) => {
            proof {
                assert(av_views(es.values@) == effective_of(layer_views(layers@)));
            }
            let vals = resolve_configs(&es);
            proof {
                assert(av_views(vals@) == nondefault_rows(layer_views(layers@)));
                assert forall|k: int| 0 <= k < vals@.len() implies #[trigger] vals@[k]@
                    == nondefault_rows(layer_views(layers@))[k] by {
                    assert(av_views(vals@)[k] == vals@[k]@);
                }
            }
            Ok(configs_to_tuple_list(vals))
        },
    }
}

} // verus!
