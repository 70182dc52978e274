use vstd::prelude::*;

use crate::errors::ConfigError;

verus! {

/// Where a configuration value came from, lowest priority first.
#[derive(PartialEq, Eq, Structural, Clone, Copy, Debug)]
pub enum LayerSource {
    Default,
    Environment,
    User,
    Repository,
}

/// A structured configuration value, as the layer reader hands it over.
#[derive(Debug)]
pub enum ConfigValue {
    Str(String),
    Int(i64),
    Bool(bool),
    List(Vec<String>),
}

/// Mathematical shape of a configuration value.
pub enum ValueView {
    Str(Seq<char>),
    Int(int),
    Bool(bool),
    List(Seq<Seq<char>>),
}

impl View for ConfigValue {
    type V = ValueView;

    open spec fn view(&self) -> ValueView {
        match self {
            ConfigValue::Str(s) => ValueView::Str(s@),
            ConfigValue::Int(i) => ValueView::Int(*i as int),
            ConfigValue::Bool(b) => ValueView::Bool(*b),
            ConfigValue::List(v) => ValueView::List(v@.map_values(|x: String| x@)),
        }
    }
}

/// Values conflict across layers when their kinds differ (a list in one
/// layer, a scalar in another).
pub open spec fn kindn(v: ValueView) -> int {
    match v {
        ValueView::Str(_) => 0,
        ValueView::Int(_) => 1,
        ValueView::Bool(_) => 2,
        ValueView::List(_) => 3,
    }
}

impl ConfigValue {
    /// A copy that keeps the view.
    pub fn dup(&self) -> (r: ConfigValue)
        ensures
            r@ == self@,
    {
        match self {
            ConfigValue::Str(s) => ConfigValue::Str(s.clone()),
            ConfigValue::Int(i) => ConfigValue::Int(*i),
            ConfigValue::Bool(b) => ConfigValue::Bool(*b),
            ConfigValue::List(v) => {
                let c = v.clone();
                proof {
                    assert forall|i: int| 0 <= i < v@.len() implies c@[i]@ == v@[i]@ by {}
                    assert(c@.map_values(|x: String| x@) =~= v@.map_values(|x: String| x@));
                }
                ConfigValue::List(c)
            },
        }
    }

    /// Whether two values have the same kind (both strings, both lists, ...).
    pub fn same_kind(&self, other: &ConfigValue) -> (r: bool)
        ensures
            r == (kindn(self@) == kindn(other@)),
    {
        match (self, other) {
            (ConfigValue::Str(_), ConfigValue::Str(_)) => true,
            (ConfigValue::Int(_), ConfigValue::Int(_)) => true,
            (ConfigValue::Bool(_), ConfigValue::Bool(_)) => true,
            (ConfigValue::List(_), ConfigValue::List(_)) => true,
            _ => false,
        }
    }
}

/// One key path and its value inside one layer.
#[derive(Debug)]
pub struct ConfigEntry {
    pub key: String,
    pub value: ConfigValue,
}

pub struct EntryView {
    pub key: Seq<char>,
    pub value: ValueView,
}

impl View for ConfigEntry {
    type V = EntryView;

    open spec fn view(&self) -> EntryView {
        EntryView { key: self.key@, value: self.value@ }
    }
}

/// One configuration layer: its source and its entries in file order.
#[derive(Debug)]
pub struct ConfigLayer {
    pub source: LayerSource,
    pub entries: Vec<ConfigEntry>,
}

pub struct LayerView {
    pub source: LayerSource,
    pub entries: Seq<EntryView>,
}

impl View for ConfigLayer {
    type V = LayerView;

    open spec fn view(&self) -> LayerView {
        LayerView {
            source: self.source,
            entries: self.entries@.map_values(|e: ConfigEntry| e@),
        }
    }
}

/// One merged configuration value with its provenance. A value is overridden
/// when a later entry (higher priority, or later in the same layer) gives the
/// same key path.
#[derive(Debug)]
pub struct AnnotatedValue {
    pub name: String,
    pub value: ConfigValue,
    pub source: LayerSource,
    pub is_overridden: bool,
}

pub struct AnnotatedView {
    pub name: Seq<char>,
    pub value: ValueView,
    pub source: LayerSource,
    pub is_overridden: bool,
}

impl View for AnnotatedValue {
    type V = AnnotatedView;

    open spec fn view(&self) -> AnnotatedView {
        AnnotatedView {
            name: self.name@,
            value: self.value@,
            source: self.source,
            is_overridden: self.is_overridden,
        }
    }
}

/// The effective merged configuration: every (layer, key, value) triple in
/// priority order, each marked overridden when a later one repeats its key.
#[derive(Debug)]
pub struct EffectiveSettings {
    pub values: Vec<AnnotatedValue>,
}

pub open spec fn av_views(s: Seq<AnnotatedValue>) -> Seq<AnnotatedView> {
    s.map_values(|a: AnnotatedValue| a@)
}

pub open spec fn layer_views(s: Seq<ConfigLayer>) -> Seq<LayerView> {
    s.map_values(|l: ConfigLayer| l@)
}

/// The entries of one layer, tagged with the layer's source.
pub open spec fn flat_layer(src: LayerSource, es: Seq<EntryView>) -> Seq<(LayerSource, EntryView)>
    decreases es.len(),
{
    if es.len() == 0 {
        Seq::empty()
    } else {
        flat_layer(src, es.drop_last()).push((src, es.last()))
    }
}

/// All layers flattened into one sequence, priority order kept.
pub open spec fn flat_all(ls: Seq<LayerView>) -> Seq<(LayerSource, EntryView)>
    decreases ls.len(),
{
    if ls.len() == 0 {
        Seq::empty()
    } else {
        flat_all(ls.drop_last()) + flat_layer(ls.last().source, ls.last().entries)
    }
}

/// A later entry gives the same key path.
pub open spec fn overridden_at(f: Seq<(LayerSource, EntryView)>, m: int) -> bool {
    exists|m2: int| m < m2 < f.len() && #[trigger] f[m2].1.key == f[m].1.key
}

/// Two entries of the same key whose value kinds differ.
pub open spec fn conflict_pair(f: Seq<(LayerSource, EntryView)>, m1: int, m2: int) -> bool {
    0 <= m1 < m2 < f.len() && f[m1].1.key == f[m2].1.key && kindn(f[m1].1.value) != kindn(
        f[m2].1.value,
    )
}

pub open spec fn has_conflict(f: Seq<(LayerSource, EntryView)>) -> bool {
    exists|m1: int, m2: int| #[trigger] conflict_pair(f, m1, m2)
}

/// What the m-th flattened entry looks like once annotated.
pub open spec fn ann_of_flat(f: Seq<(LayerSource, EntryView)>, m: int) -> AnnotatedView {
    AnnotatedView {
        name: f[m].1.key,
        value: f[m].1.value,
        source: f[m].0,
        is_overridden: overridden_at(f, m),
    }
}

/// The effective settings that resolving a given layer stack must produce.
pub open spec fn effective_of(ls: Seq<LayerView>) -> Seq<AnnotatedView> {
    Seq::new(flat_all(ls).len(), |m: int| ann_of_flat(flat_all(ls), m))
}

/// Annotated entries that agree with the flattened layers, overriding not yet
/// marked.
pub open spec fn pre_matches(a: Seq<AnnotatedView>, f: Seq<(LayerSource, EntryView)>) -> bool {
    a.len() == f.len() && forall|m: int|
        0 <= m < a.len() ==> #[trigger] a[m] == AnnotatedView {
            name: f[m].1.key,
            value: f[m].1.value,
            source: f[m].0,
            is_overridden: false,
        }
}

/// Flattens the layer stack into annotated values in priority order, with
/// overriding not yet marked.
fn flatten_layers(layers: &Vec<ConfigLayer>) -> (r: Vec<AnnotatedValue>)
    ensures
        pre_matches(av_views(r@), flat_all(layer_views(layers@))),
{
    let ghost lv = layer_views(layers@);
    let mut acc: Vec<AnnotatedValue> = Vec::new();
    let mut li: usize = 0;
    proof {
        assert(lv.take(0) =~= Seq::<LayerView>::empty());
        assert(av_views(acc@) =~= Seq::<AnnotatedView>::empty());
    }
    while li < layers.len()
        invariant
            li <= layers.len(),
            lv == layer_views(layers@),
            pre_matches(av_views(acc@), flat_all(lv.take(li as int))),
        decreases layers.len() - li,
    {
        proof {
            assert(lv[li as int] == layers@[li as int]@);
        }
        let ghost src = lv[li as int].source;
        let ghost evs = lv[li as int].entries;
        let ghost base = flat_all(lv.take(li as int));
        let layer = &layers[li];
        let mut ei: usize = 0;
        proof {
            assert(evs.take(0) =~= Seq::<EntryView>::empty());
            assert(base + flat_layer(src, evs.take(0)) =~= base);
        }
        while ei < layer.entries.len()
            invariant
                ei <= layer.entries.len(),
                li < layers.len(),
                lv == layer_views(layers@),
                src == lv[li as int].source,
                evs == lv[li as int].entries,
                base == flat_all(lv.take(li as int)),
                lv[li as int] == layers@[li as int]@,
                pre_matches(av_views(acc@), base + flat_layer(src, evs.take(ei as int))),
            decreases layer.entries.len() - ei,
        {
            let e = &layer.entries[ei];
            proof {
                assert(evs[ei as int] == layer.entries@[ei as int]@);
            }
            let a = AnnotatedValue {
                name: e.key.clone(),
                value: e.value.dup(),
                source: layer.source,
                is_overridden: false,
            };
            proof {
                assert(a@ == AnnotatedView {
                    name: evs[ei as int].key,
                    value: evs[ei as int].value,
                    source: src,
                    is_overridden: false,
                });
            }
            let ghost prev = acc@;
            let ghost oldx = base + flat_layer(src, evs.take(ei as int));
            acc.push(a);
            proof {
                assert(evs.take(ei + 1).drop_last() =~= evs.take(ei as int));
                assert(evs.take(ei + 1).last() == evs[ei as int]);
                assert(flat_layer(src, evs.take(ei + 1)) == flat_layer(
                    src,
                    evs.take(ei as int),
                ).push((src, evs[ei as int])));
                let ghost newx = base + flat_layer(src, evs.take(ei + 1));
                assert(newx =~= oldx.push((src, evs[ei as int])));
                assert(acc@ == prev.push(a));
                assert forall|mm: int| 0 <= mm < acc@.len() implies #[trigger] av_views(acc@)[mm]
                    == (AnnotatedView {
                    name: newx[mm].1.key,
                    value: newx[mm].1.value,
                    source: newx[mm].0,
                    is_overridden: false,
                }) by {
                    assert(av_views(acc@)[mm] == acc@[mm]@);
                    if mm < prev.len() {
                        assert(acc@[mm] == prev[mm]);
                        assert(av_views(prev)[mm] == prev[mm]@);
                        assert(newx[mm] == oldx[mm]);
                    } else {
                        assert(acc@[mm] == a);
                        assert(newx[mm] == (src, evs[ei as int]));
                    }
                }
                assert(pre_matches(av_views(acc@), newx));
            }
            ei += 1;
        }
        proof {
            assert(evs.take(ei as int) =~= evs);
            assert(lv.take(li + 1).drop_last() =~= lv.take(li as int));
            assert(lv.take(li + 1).last() == lv[li as int]);
            assert(flat_all(lv.take(li + 1)) == base + flat_layer(src, evs));
        }
        li += 1;
    }
    proof {
        assert(lv.take(layers@.len() as int) =~= lv);
    }
    acc
}

/// Scans the flattened entries for two of the same key path whose value
/// kinds differ; returns the offending key path.
fn find_conflict(flat: &Vec<AnnotatedValue>) -> (r: Option<String>)
    ensures
        r is Some <==> has_conflict_views(av_views(flat@)),
        match r {
            Some(k) => exists|m1: int, m2: int|
                #[trigger] views_conflict(av_views(flat@), m1, m2) && av_views(flat@)[m1].name
                    == k@,
            None => true,
        },
{
    let n = flat.len();
    let mut m1: usize = 0;
    while m1 < n
        invariant
            m1 <= n,
            n == flat.len(),
            forall|a: int, b: int| 0 <= a < m1 && a < b < n ==> !views_conflict(
                av_views(flat@),
                a,
                b,
            ),
        decreases n - m1,
    {
        let mut m2: usize = m1 + 1;
        while m2 < n
            invariant
                m1 < m2 <= n,
                m1 < n,
                n == flat.len(),
                forall|b: int| m1 < b < m2 ==> !views_conflict(av_views(flat@), m1 as int, b),
            decreases n - m2,
        {
            let same_key = flat[m1].name == flat[m2].name;
            let same_kind = flat[m1].value.same_kind(&flat[m2].value);
            if same_key && !same_kind {
                proof {
                    assert(views_conflict(av_views(flat@), m1 as int, m2 as int));
                }
                return Some(flat[m1].name.clone());
            }
            m2 += 1;
        }
        m1 += 1;
    }
    proof {
        assert forall|a: int, b: int| !views_conflict(av_views(flat@), a, b) by {}
    }
    None
}

/// Two annotated entries of the same key whose value kinds differ.
pub open spec fn views_conflict(a: Seq<AnnotatedView>, m1: int, m2: int) -> bool {
    0 <= m1 < m2 < a.len() && a[m1].name == a[m2].name && kindn(a[m1].value) != kindn(a[m2].value)
}

pub open spec fn has_conflict_views(a: Seq<AnnotatedView>) -> bool {
    exists|m1: int, m2: int| #[trigger] views_conflict(a, m1, m2)
}

/// Marks every entry that a later entry of the same key path overrides.
fn mark_overridden(flat: &Vec<AnnotatedValue>) -> (r: Vec<AnnotatedValue>)
    ensures
        av_views(r@).len() == av_views(flat@).len(),
        forall|m: int|
            0 <= m < flat@.len() ==> #[trigger] av_views(r@)[m] == (AnnotatedView {
                is_overridden: later_same_key(av_views(flat@), m),
                ..av_views(flat@)[m]
            }),
{
    let n = flat.len();
    let mut out: Vec<AnnotatedValue> = Vec::new();
    let mut m: usize = 0;
    while m < n
        invariant
            m <= n,
            n == flat.len(),
            out@.len() == m,
            forall|i: int|
                0 <= i < m ==> #[trigger] av_views(out@)[i] == (AnnotatedView {
                    is_overridden: later_same_key(av_views(flat@), i),
                    ..av_views(flat@)[i]
                }),
        decreases n - m,
    {
        let mut ov = false;
        let mut m2: usize = m + 1;
        while m2 < n
            invariant
                m < m2 <= n,
                m < n,
                n == flat.len(),
                ov == exists|b: int|
                    m < b < m2 && #[trigger] av_views(flat@)[b].name == av_views(
                        flat@,
                    )[m as int].name,
            decreases n - m2,
        {
            if flat[m].name == flat[m2].name {
                proof {
                    assert(av_views(flat@)[m2 as int].name == av_views(flat@)[m as int].name);
                }
                ov = true;
            }
            m2 += 1;
        }
        let a = AnnotatedValue {
            name: flat[m].name.clone(),
            value: flat[m].value.dup(),
            source: flat[m].source,
            is_overridden: ov,
        };
        proof {
            assert(ov == later_same_key(av_views(flat@), m as int));
            assert(av_views(flat@)[m as int] == flat@[m as int]@);
            assert(a@ == (AnnotatedView {
                is_overridden: later_same_key(av_views(flat@), m as int),
                ..av_views(flat@)[m as int]
            }));
        }
        let ghost prev = out@;
        out.push(a);
        proof {
            assert(out@ == prev.push(a));
            assert forall|i: int| 0 <= i < out@.len() implies #[trigger] av_views(out@)[i]
                == (AnnotatedView {
                is_overridden: later_same_key(av_views(flat@), i),
                ..av_views(flat@)[i]
            }) by {
                assert(av_views(out@)[i] == out@[i]@);
                if i < prev.len() {
                    assert(out@[i] == prev[i]);
                    assert(av_views(prev)[i] == prev[i]@);
                } else {
                    assert(out@[i] == a);
                }
            }
        }
        m += 1;
    }
    out
}

/// A later entry gives the same key path.
pub open spec fn later_same_key(a: Seq<AnnotatedView>, m: int) -> bool {
    exists|m2: int| m < m2 < a.len() && #[trigger] a[m2].name == a[m].name
}

/// Merges the configuration layers, lowest priority first, into the
/// effective settings: a left fold that keeps every entry with its source
/// and marks the ones a later layer (or a later entry of the same layer)
/// overrides. Fails when two layers give the same key path values of
/// different kinds.
pub fn resolve(layers: &Vec<ConfigLayer>) -> (r: Result<EffectiveSettings, ConfigError>)
    ensures
        r is Ok <==> !has_conflict(flat_all(layer_views(layers@))),
        match r {
            Ok(es) => av_views(es.values@) =~= effective_of(layer_views(layers@)),
            Err(e) => e matches ConfigError::Merge { key, cause: _ } && exists|m1: int, m2: int|
                #[trigger] conflict_pair(flat_all(layer_views(layers@)), m1, m2) && flat_all(
                    layer_views(layers@),
                )[m1].1.key == key@,
        },
{
    let ghost f = flat_all(layer_views(layers@));
    let flat = flatten_layers(layers);
    proof {
        assert forall|m1: int, m2: int|
            views_conflict(av_views(flat@), m1, m2) == conflict_pair(f, m1, m2) by {
            if 0 <= m1 < m2 < f.len() {
                assert(av_views(flat@)[m1] == AnnotatedView {
                    name: f[m1].1.key,
                    value: f[m1].1.value,
                    source: f[m1].0,
                    is_overridden: false,
                });
                assert(av_views(flat@)[m2] == AnnotatedView {
                    name: f[m2].1.key,
                    value: f[m2].1.value,
                    source: f[m2].0,
                    is_overridden: false,
                });
            }
        }
    }
    match find_conflict(&flat) {
        Some(key) => {
            proof {
                let (m1, m2) = choose|m1: int, m2: int|
                    #[trigger] views_conflict(av_views(flat@), m1, m2) && av_views(flat@)[m1].name
                        == key@;
                assert(conflict_pair(f, m1, m2));
            }
            Err(ConfigError::Merge {
                key,
                cause: String::from_str("value kinds differ across configuration layers"),
            })
        },
        None => {
            let marked = mark_overridden(&flat);
            proof {
                assert forall|m: int| 0 <= m < f.len() implies av_views(marked@)[m] == ann_of_flat(
                    f,
                    m,
                ) by {
                    assert(av_views(flat@)[m] == AnnotatedView {
                        name: f[m].1.key,
                        value: f[m].1.value,
                        source: f[m].0,
                        is_overridden: false,
                    });
                    if later_same_key(av_views(flat@), m) {
                        let b = choose|b: int|
                            m < b < av_views(flat@).len() && #[trigger] av_views(flat@)[b].name
                                == av_views(flat@)[m].name;
                        assert(av_views(flat@)[b] == AnnotatedView {
                            name: f[b].1.key,
                            value: f[b].1.value,
                            source: f[b].0,
                            is_overridden: false,
                        });
                        assert(f[b].1.key == f[m].1.key);
                        assert(overridden_at(f, m));
                    }
                    if overridden_at(f, m) {
                        let b = choose|b: int| m < b < f.len() && #[trigger] f[b].1.key == f[m].1.key;
                        assert(av_views(flat@)[b] == AnnotatedView {
                            name: f[b].1.key,
                            value: f[b].1.value,
                            source: f[b].0,
                            is_overridden: false,
                        });
                        assert(av_views(flat@)[b].name == av_views(flat@)[m].name);
                        assert(later_same_key(av_views(flat@), m));
                    }
                    assert(later_same_key(av_views(flat@), m) == overridden_at(f, m));
                }
                assert(av_views(marked@) =~= effective_of(layer_views(layers@)));
            }
            Ok(EffectiveSettings { values: marked })
        },
    }
}

} // verus!
