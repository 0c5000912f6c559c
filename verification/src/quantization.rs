//! Classes and omissions of the bands of products.

use vstd::prelude::*;

use crate::model::{BandSpec, PreparedProduct, Quantization, TilesetSpec};
use crate::options::ConvertOptions;

verus! {

/// What the bands of one product are resolved to: the classes of each, and the
/// values that are left out of its tiles before and after quantization.
#[derive(Debug)]
pub struct BandRules {
    pub quantize: Vec<Option<Quantization>>,
    pub omit_zero: Vec<Option<Vec<u64>>>,
    pub omit_class: Vec<Option<Vec<u64>>>,
}

/// Some option asks for classes or omissions.
pub open spec fn asks_for_rules(options: ConvertOptions) -> bool {
    options.quantize@.len() > 0 || options.omit_class@.len() > 0 || options.omit_zero
}

/// Whether the bands have to be resolved at all.
pub fn wants_quantization(options: &ConvertOptions) -> (r: bool)
    ensures
        r == asks_for_rules(*options),
{
    options.quantize.len() > 0 || options.omit_class.len() > 0 || options.omit_zero
}

/// The product takes the rules, and is otherwise what it was.
pub open spec fn takes_rules(
    product: PreparedProduct,
    before: PreparedProduct,
    rules: BandRules,
) -> bool {
    product == PreparedProduct {
        spec: TilesetSpec {
            quantize: rules.quantize,
            omit_zero: rules.omit_zero,
            omit_class: rules.omit_class,
            ..before.spec
        },
        ..before
    }
}

/// What rules say.
pub struct RulesView {
    pub quantize: Seq<Option<(Seq<u64>, Seq<u64>)>>,
    pub omit_zero: Seq<Option<Seq<u64>>>,
    pub omit_class: Seq<Option<Seq<u64>>>,
}

/// The classes of bands.
pub open spec fn classes_view(quantize: Seq<Option<Quantization>>) -> Seq<
    Option<(Seq<u64>, Seq<u64>)>,
> {
    quantize.map_values(
        |q: Option<Quantization>|
            match q {
                Some(q) => Some((q.bounds@, q.outputs@)),
                None => None,
            },
    )
}

/// The values of bands that are left out.
pub open spec fn omissions_view(omit: Seq<Option<Vec<u64>>>) -> Seq<Option<Seq<u64>>> {
    omit.map_values(
        |values: Option<Vec<u64>>|
            match values {
                Some(values) => Some(values@),
                None => None,
            },
    )
}

pub open spec fn rules_view(rules: BandRules) -> RulesView {
    RulesView {
        quantize: classes_view(rules.quantize@),
        omit_zero: omissions_view(rules.omit_zero@),
        omit_class: omissions_view(rules.omit_class@),
    }
}

/// What a product is quantized to, and what is left out of it.
pub open spec fn spec_rules(spec: TilesetSpec) -> RulesView {
    RulesView {
        quantize: classes_view(spec.quantize@),
        omit_zero: omissions_view(spec.omit_zero@),
        omit_class: omissions_view(spec.omit_class@),
    }
}

/// Every product's rules were resolved against its own bands.
pub open spec fn resolved_by(
    products: Seq<PreparedProduct>,
    rules: Seq<BandRules>,
    resolve: spec_fn(Seq<BandSpec>) -> RulesView,
) -> bool {
    &&& rules.len() == products.len()
    &&& forall|i: int|
        0 <= i < products.len() ==> rules_view(#[trigger] rules[i]) == resolve(
            products[i].spec.band_specs@,
        )
}

/// Every product takes its rules.
pub open spec fn all_take_rules(
    after: Seq<PreparedProduct>,
    before: Seq<PreparedProduct>,
    rules: Seq<BandRules>,
) -> bool {
    &&& after.len() == before.len()
    &&& forall|i: int|
        0 <= i < before.len() ==> takes_rules(#[trigger] after[i], before[i], rules[i])
}

/// What a product gets is resolved against its own bands, not against those of the
/// products converted alongside it: products with the same bands end with the same
/// rules, whatever stands beside them and wherever they stand.
pub proof fn lemma_rules_apart(
    a: Seq<PreparedProduct>,
    b: Seq<PreparedProduct>,
    p: Seq<PreparedProduct>,
    q: Seq<PreparedProduct>,
    rules: Seq<BandRules>,
    others: Seq<BandRules>,
    resolve: spec_fn(Seq<BandSpec>) -> RulesView,
    i: int,
    j: int,
)
    requires
        resolved_by(a, rules, resolve),
        resolved_by(b, others, resolve),
        all_take_rules(p, a, rules),
        all_take_rules(q, b, others),
        0 <= i < a.len(),
        0 <= j < b.len(),
        a[i].spec.band_specs@ == b[j].spec.band_specs@,
    ensures
        spec_rules(p[i].spec) == spec_rules(q[j].spec),
        spec_rules(p[i].spec) == resolve(a[i].spec.band_specs@),
{
    assert(takes_rules(p[i], a[i], rules[i]));
    assert(takes_rules(q[j], b[j], others[j]));
    assert(rules_view(rules[i]) == rules_view(others[j]));
}

/// Gives each product the rules that its bands were resolved to.
///
/// The specification is shared even though the raw values are not, so every
/// product has rules of its own. Without any request the products stay as they
/// are.
pub fn apply_quantization(
    products: &mut Vec<PreparedProduct>,
    options: &ConvertOptions,
    rules: Vec<BandRules>,
)
    requires
        asks_for_rules(*options) ==> rules@.len() == old(products)@.len(),
    ensures
        if asks_for_rules(*options) {
            all_take_rules(final(products)@, old(products)@, rules@)
        } else {
            final(products)@ == old(products)@
        },
{
    if !wants_quantization(options) {
        return;
    }
    let ghost given = products@;
    let ghost all = rules@;
    let mut rest = rules;
    let count: usize = products.len();
    let mut i: usize = count;
    while i > 0
        invariant
            i <= count,
            products@.len() == count,
            given.len() == count,
            all.len() == count,
            rest@ == all.take(i as int),
            forall|k: int| 0 <= k < i ==> #[trigger] products@[k] == given[k],
            forall|k: int|
                i <= k < count ==> takes_rules(#[trigger] products@[k], given[k], all[k]),
        decreases i,
    {
        i = i - 1;
        match rest.pop() {
            Some(own) => {
                products[i].spec.quantize = own.quantize;
                products[i].spec.omit_zero = own.omit_zero;
                products[i].spec.omit_class = own.omit_class;
            },
            None => {},
        }
        assert(rest@ =~= all.take(i as int));
    }
}

/// The rules of a product stand where they belong: the classes with the classes, what is
/// left out before quantization and what is left out after it each in its own place. All
/// else stays. They are asked for by classes, by classes left out, or by zero left out.
pub proof fn lemma_rules_taken(
    product: PreparedProduct,
    before: PreparedProduct,
    rules: BandRules,
    options: ConvertOptions,
)
    requires
        takes_rules(product, before, rules),
    ensures
        product.spec.quantize == rules.quantize,
        product.spec.omit_zero == rules.omit_zero,
        product.spec.omit_class == rules.omit_class,
        product.spec.name == before.spec.name,
        product.spec.base_z == before.spec.base_z,
        product.spec.grid_spec == before.spec.grid_spec,
        product.spec.aggregation == before.spec.aggregation,
        product.spec.band_specs == before.spec.band_specs,
        product.spec.bounds == before.spec.bounds,
        product.product_id == before.product_id,
        product.chunks == before.chunks,
        !asks_for_rules(options) <==> options.quantize@.len() == 0 && options.omit_class@.len()
            == 0 && !options.omit_zero,
{
}

/// Every product takes the rules at its own place of the list.
pub proof fn lemma_own_rules(
    after: Seq<PreparedProduct>,
    before: Seq<PreparedProduct>,
    rules: Seq<BandRules>,
    i: int,
)
    requires
        all_take_rules(after, before, rules),
        0 <= i < before.len(),
    ensures
        after.len() == before.len(),
        after[i].spec.quantize == rules[i].quantize,
        after[i].spec.omit_zero == rules[i].omit_zero,
        after[i].spec.omit_class == rules[i].omit_class,
        after[i].spec.band_specs == before[i].spec.band_specs,
        after[i].chunks == before[i].chunks,
{
    assert(takes_rules(after[i], before[i], rules[i]));
}

} // verus!
