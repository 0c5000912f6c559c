//! What a conversion is asked to do, and what follows from it for the names of
//! layers and bands.

use vstd::prelude::*;

use vstd::string::StringExecFns;

use crate::model::{band_names, BandSpec, PreparedProduct};
use crate::raster::{
    encoding_name, encoding_of, encoding_parts, encoding_request, reports_request, ColorEncoding,
    RequestError, RequestFault,
};
use crate::text::{
    contains, copy_texts, debug_text, decimal, decimal_text, first_place, join, joined,
    lemma_decimal_injective, lemma_first_place_found, lemma_replaced, occurs, occurs_at, quoted,
    replace, replaced, split_once, texts, trim, trimmed,
};

verus! {

#[derive(Debug)]
pub struct ConvertOptions {
    pub product: Option<String>,
    pub layer_name_pattern: String,
    pub layer_count: Option<usize>,
    pub min_zoom: u8,
    pub max_zoom: Option<u8>,
    /// First value substituted for `{seq}` in the layer name pattern.
    pub layer_seq_start: usize,
    /// Band renames as `from=to`.
    pub rename: Vec<String>,
    /// One `--quantize` specification per band.
    pub quantize: Vec<String>,
    /// Quantized class outputs left out of the tile, as `[<band>=]<value>[,...]`.
    pub omit_class: Vec<String>,
    /// Leave out cells whose physical value is zero before quantization.
    pub omit_zero: bool,
    /// Emit RGBA raster tiles with this colour encoding instead of MVT.
    pub raster: Option<String>,
    /// Write an index of the raster archives to this path.
    pub manifest: Option<String>,
    /// Drop products whose generating process is an analysis rather than a forecast.
    pub skip_analysis: bool,
    /// Keep only products at least this many minutes ahead of the reference time.
    pub min_lead_time: Option<i64>,
}

impl Default for ConvertOptions {
    fn default() -> (options: Self)
        ensures
            options.product is None,
            options.layer_name_pattern@ == "layer_{seq}"@,
            options.layer_count is None,
            options.min_zoom == 0,
            options.max_zoom is None,
            options.layer_seq_start == 0,
            options.rename@.len() == 0,
            options.quantize@.len() == 0,
            options.omit_class@.len() == 0,
            !options.omit_zero,
            options.raster is None,
            options.manifest is None,
            !options.skip_analysis,
            options.min_lead_time is None,
    {
        ConvertOptions {
            product: None,
            layer_name_pattern: String::from_str("layer_{seq}"),
            layer_count: None,
            min_zoom: 0,
            max_zoom: None,
            layer_seq_start: 0,
            rename: Vec::new(),
            quantize: Vec::new(),
            omit_class: Vec::new(),
            omit_zero: false,
            raster: None,
            manifest: None,
            skip_analysis: false,
            min_lead_time: None,
        }
    }
}

/// The pattern with the sequence number put in.
pub open spec fn numbered(pattern: Seq<char>, sequence: nat) -> Seq<char> {
    replaced(pattern, "{seq}"@, decimal(sequence))
}

/// Builds the source-layer names, numbering from `layer_seq_start`.
///
/// Products are ordered by valid time, so an offset lets the numbering match
/// the forecast hours of the input (for example `FH01-06` starting at 1).
pub fn build_layer_names(options: &ConvertOptions, count: usize) -> (names: Vec<String>)
    requires
        options.layer_seq_start + count <= usize::MAX,
    ensures
        names@.len() == count,
        forall|i: int|
            0 <= i < count ==> (#[trigger] names@[i])@ == numbered(
                options.layer_name_pattern@,
                (options.layer_seq_start + i) as nat,
            ),
{
    let mut names: Vec<String> = Vec::new();
    let mut i: usize = 0;
    while i < count
        invariant
            i <= count,
            options.layer_seq_start + count <= usize::MAX,
            names@.len() == i,
            forall|k: int|
                0 <= k < i ==> (#[trigger] names@[k])@ == numbered(
                    options.layer_name_pattern@,
                    (options.layer_seq_start + k) as nat,
                ),
        decreases count - i,
    {
        proof {
            reveal_strlit("{seq}");
        }
        let sequence: usize = options.layer_seq_start + i;
        let digits = decimal_text(sequence as u64);
        names.push(replace(options.layer_name_pattern.as_str(), "{seq}", digits.as_str()));
        i = i + 1;
    }
    names
}

/// Why bands cannot be renamed as asked.
#[derive(Debug)]
pub enum RenameError {
    /// The request is not of the form `<from>=<to>`.
    Malformed { arg: String },
    /// There is no band of that name.
    UnknownBand { from: String, available: Vec<String> },
    /// Another band has the new name already.
    Collision { to: String },
}

/// What a request to rename says: the text before the first equals sign and the
/// text behind it, neither of them empty, without the white space around them.
pub open spec fn rename_parts(arg: Seq<char>) -> Option<(Seq<char>, Seq<char>)> {
    let i = first_place(arg, '=');
    let from = trimmed(arg.take(i));
    let to = trimmed(arg.skip(i + 1));
    if i < arg.len() && from.len() > 0 && to.len() > 0 {
        Some((from, to))
    } else {
        None
    }
}

pub fn parse_rename(arg: &str) -> (parts: Result<(String, String), RenameError>)
    ensures
        match parts {
            Ok((from, to)) => rename_parts(arg@) == Some((from@, to@)),
            Err(RenameError::Malformed { arg: a }) => a@ == arg@ && rename_parts(arg@) is None,
            Err(_) => false,
        },
{
    match split_once(arg, '=') {
        Some((before, behind)) => {
            let from = trim(before.as_str());
            let to = trim(behind.as_str());
            if from.as_str().is_empty() || to.as_str().is_empty() {
                Err(RenameError::Malformed { arg: String::from_str(arg) })
            } else {
                Ok((from, to))
            }
        },
        None => Err(RenameError::Malformed { arg: String::from_str(arg) }),
    }
}

/// What can go wrong with one request.
pub enum RenameFault {
    Malformed,
    UnknownBand,
    Collision,
}

/// The names after one request, or what is wrong with it.
pub open spec fn renamed_once(
    names: Seq<Seq<char>>,
    arg: Seq<char>,
) -> Result<Seq<Seq<char>>, RenameFault> {
    match rename_parts(arg) {
        None => Err(RenameFault::Malformed),
        Some((from, to)) => if !names.contains(from) {
            Err(RenameFault::UnknownBand)
        } else if names.contains(to) {
            Err(RenameFault::Collision)
        } else {
            Ok(names.update(first_name(names, from), to))
        },
    }
}

/// The first place of a name.
pub open spec fn first_name(names: Seq<Seq<char>>, name: Seq<char>) -> int
    decreases names.len(),
{
    if names.len() == 0 || names[0] == name {
        0
    } else {
        1 + first_name(names.skip(1), name)
    }
}

proof fn lemma_first_name(names: Seq<Seq<char>>, name: Seq<char>, i: int)
    requires
        0 <= i < names.len(),
        names[i] == name,
        forall|k: int| 0 <= k < i ==> #[trigger] names[k] != name,
    ensures
        first_name(names, name) == i,
    decreases names.len(),
{
    if i > 0 {
        assert(names[0] != name);
        let rest = names.skip(1);
        assert forall|k: int| 0 <= k < i - 1 implies #[trigger] rest[k] != name by {
            assert(rest[k] == names[k + 1]);
        }
        lemma_first_name(rest, name, i - 1);
    }
}

proof fn lemma_first_name_found(names: Seq<Seq<char>>, name: Seq<char>)
    requires
        names.contains(name),
    ensures
        0 <= first_name(names, name) < names.len(),
        names[first_name(names, name)] == name,
    decreases names.len(),
{
    let i = choose|i: int| 0 <= i < names.len() && names[i] == name;
    if names[0] != name {
        assert(names.skip(1)[i - 1] == name);
        lemma_first_name_found(names.skip(1), name);
    }
}

/// The names after the first `n` requests, applied one after another, or after
/// those before the first that cannot be met.
pub open spec fn renamed(names: Seq<Seq<char>>, args: Seq<Seq<char>>, n: nat) -> Seq<Seq<char>>
    decreases n,
{
    if n == 0 {
        names
    } else {
        let before = renamed(names, args, (n - 1) as nat);
        match renamed_once(before, args[n - 1]) {
            Ok(after) => after,
            Err(_) => before,
        }
    }
}

/// The first `n` requests can be met.
pub open spec fn renames_hold(names: Seq<Seq<char>>, args: Seq<Seq<char>>, n: int) -> bool {
    forall|k: int|
        0 <= k < n ==> renamed_once(renamed(names, args, k as nat), #[trigger] args[k]) is Ok
}

fn find_name(names: &Vec<String>, name: &String) -> (place: Option<usize>)
    ensures
        match place {
            Some(i) => {
                &&& i < names@.len()
                &&& names@[i as int]@ == name@
                &&& first_name(texts(names@), name@) == i
                &&& texts(names@).contains(name@)
            },
            None => !texts(names@).contains(name@),
        },
{
    let mut i: usize = 0;
    while i < names.len()
        invariant
            i <= names@.len(),
            forall|k: int| 0 <= k < i ==> (#[trigger] names@[k])@ != name@,
        decreases names@.len() - i,
    {
        if names[i] == *name {
            proof {
                assert forall|k: int| 0 <= k < i implies #[trigger] texts(names@)[k] != name@ by {
                    assert(names@[k]@ != name@);
                }
                assert(texts(names@)[i as int] == name@);
                lemma_first_name(texts(names@), name@, i as int);
            }
            return Some(i);
        }
        i = i + 1;
    }
    proof {
        if texts(names@).contains(name@) {
            let k = choose|k: int| 0 <= k < texts(names@).len() && texts(names@)[k] == name@;
            assert(names@[k]@ == name@);
        }
    }
    None
}

/// What a fault looks like to the caller.
pub open spec fn reports(
    error: RenameError,
    fault: RenameFault,
    names: Seq<Seq<char>>,
    arg: Seq<char>,
) -> bool {
    match (error, fault) {
        (RenameError::Malformed { arg: a }, RenameFault::Malformed) => a@ == arg,
        (RenameError::UnknownBand { from, available }, RenameFault::UnknownBand) => {
            &&& texts(available@) == names
            &&& rename_parts(arg) matches Some((f, _)) && f == from@
        },
        (RenameError::Collision { to }, RenameFault::Collision) => rename_parts(arg) matches Some(
            (_, t),
        ) && t == to@,
        _ => false,
    }
}

/// Applies renames one after another, up to the first that cannot be met.
pub fn resolve_renames(names: &mut Vec<String>, args: &Vec<String>) -> (outcome: Result<
    (),
    RenameError,
>)
    ensures
        match outcome {
            Ok(_) => {
                &&& renames_hold(texts(old(names)@), texts(args@), args@.len() as int)
                &&& texts(final(names)@) == renamed(texts(old(names)@), texts(args@), args@.len())
            },
            Err(error) => rename_fails(texts(old(names)@), texts(args@), texts(final(names)@), error),
        },
{
    let ghost given = texts(names@);
    let ghost asked = texts(args@);
    let mut n: usize = 0;
    while n < args.len()
        invariant
            n <= args@.len(),
            asked == texts(args@),
            given == texts(old(names)@),
            renames_hold(given, asked, n as int),
            texts(names@) == renamed(given, asked, n as nat),
        decreases args@.len() - n,
    {
        let ghost now = texts(names@);
        proof {
            assert(asked[n as int] == args@[n as int]@);
        }
        match parse_rename(args[n].as_str()) {
            Ok((from, to)) => {
                match find_name(names, &from) {
                    Some(index) => {
                        match find_name(names, &to) {
                            Some(_) => {
                                let error = RenameError::Collision { to };
                                proof {
                                    assert(reports(
                                        error,
                                        RenameFault::Collision,
                                        now,
                                        asked[n as int],
                                    ));
                                    assert(fails_at(given, asked, texts(names@), error, n as int));
                                }
                                return Err(error);
                            },
                            None => {
                                names.set(index, to);
                                proof {
                                    assert(texts(names@) =~= now.update(index as int, to@));
                                }
                            },
                        }
                    },
                    None => {
                        let available = copy_texts(names);
                        let error = RenameError::UnknownBand { from, available };
                        proof {
                            assert(reports(
                                error,
                                RenameFault::UnknownBand,
                                now,
                                asked[n as int],
                            ));
                            assert(fails_at(given, asked, texts(names@), error, n as int));
                        }
                        return Err(error);
                    },
                }
            },
            Err(error) => {
                proof {
                    assert(reports(error, RenameFault::Malformed, now, asked[n as int]));
                    assert(fails_at(given, asked, texts(names@), error, n as int));
                }
                return Err(error);
            },
        }
        n = n + 1;
    }
    Ok(())
}

/// Request `k` is the first that cannot be met; those before it were.
pub open spec fn fails_at(
    names: Seq<Seq<char>>,
    args: Seq<Seq<char>>,
    after: Seq<Seq<char>>,
    error: RenameError,
    k: int,
) -> bool {
    &&& 0 <= k < args.len()
    &&& renames_hold(names, args, k)
    &&& after == renamed(names, args, k as nat)
    &&& renamed_once(after, args[k]) matches Err(fault) && reports(error, fault, after, args[k])
}

pub open spec fn rename_fails(
    names: Seq<Seq<char>>,
    args: Seq<Seq<char>>,
    after: Seq<Seq<char>>,
    error: RenameError,
) -> bool {
    exists|k: int| #[trigger] fails_at(names, args, after, error, k)
}

/// Bands that differ in their names before renaming differ in them afterwards.
pub proof fn lemma_renames_keep_distinct(names: Seq<Seq<char>>, args: Seq<Seq<char>>, n: nat)
    requires
        names.no_duplicates(),
        n <= args.len(),
    ensures
        renamed(names, args, n).no_duplicates(),
        renamed(names, args, n).len() == names.len(),
    decreases n,
{
    if n > 0 {
        lemma_renames_keep_distinct(names, args, (n - 1) as nat);
        let before = renamed(names, args, (n - 1) as nat);
        if let Ok(after) = renamed_once(before, args[n - 1]) {
            let (from, to) = rename_parts(args[n - 1])->0;
            let i = first_name(before, from);
            lemma_first_name_found(before, from);
            assert forall|a: int, b: int|
                0 <= a < after.len() && 0 <= b < after.len() && a != b implies after[a]
                != after[b] by {
                assert(!before.contains(to));
                if a != i {
                    assert(after[a] == before[a]);
                    assert(before.contains(before[a]));
                }
                if b != i {
                    assert(after[b] == before[b]);
                    assert(before.contains(before[b]));
                }
            }
        }
    }
}

impl RenameError {
    pub open spec fn text(self) -> Seq<char> {
        match self {
            RenameError::Malformed { arg } => "--rename expects <from>=<to> but found "@
                + debug_text(arg@),
            RenameError::UnknownBand { from, available } => "unknown band "@ + debug_text(from@)
                + " in --rename; this product has "@ + joined(
                texts(available@).map_values(|t: Seq<char>| debug_text(t)),
                ", "@,
            ),
            RenameError::Collision { to } => "--rename target "@ + debug_text(to@)
                + " collides with another band of this product"@,
        }
    }

    pub fn message(&self) -> (message: String)
        ensures
            message@ == self.text(),
    {
        match self {
            RenameError::Malformed { arg } => {
                let mut message = String::from_str("--rename expects <from>=<to> but found ");
                message.append(quoted(arg.as_str()).as_str());
                message
            },
            RenameError::UnknownBand { from, available } => {
                let mut message = String::from_str("unknown band ");
                message.append(quoted(from.as_str()).as_str());
                message.append(" in --rename; this product has ");
                let mut names: Vec<String> = Vec::new();
                let mut i: usize = 0;
                while i < available.len()
                    invariant
                        i <= available@.len(),
                        names@.len() == i,
                        forall|k: int|
                            0 <= k < i ==> (#[trigger] names@[k])@ == debug_text(available@[k]@),
                    decreases available@.len() - i,
                {
                    names.push(quoted(available[i].as_str()));
                    i = i + 1;
                }
                proof {
                    assert(texts(names@) =~= texts(available@).map_values(
                        |t: Seq<char>| debug_text(t),
                    ));
                }
                message.append(join(&names, ", ").as_str());
                message
            },
            RenameError::Collision { to } => {
                let mut message = String::from_str("--rename target ");
                message.append(quoted(to.as_str()).as_str());
                message.append(" collides with another band of this product");
                message
            },
        }
    }
}

/// Why a conversion cannot be made as asked.
#[derive(Debug)]
pub enum OptionsError {
    /// The layer name pattern lacks its placeholder.
    LayerPattern,
    /// No layer at all is asked for.
    LayerCount,
    /// A band cannot be renamed like that.
    Rename(RenameError),
    /// The raster encoding cannot be served.
    Raster(RequestError),
    /// A manifest is asked for, and nothing that it could index.
    Manifest,
}

/// What is wrong with the options, if anything is. A request to rename is known
/// by its place.
pub enum OptionsFault {
    LayerPattern,
    LayerCount,
    Rename(int),
    Raster(RequestFault),
    Manifest,
}

/// The first request to rename that cannot be read, or how many there are.
pub open spec fn first_malformed(args: Seq<Seq<char>>) -> int
    decreases args.len(),
{
    if args.len() == 0 || rename_parts(args[0]) is None {
        0
    } else {
        1 + first_malformed(args.skip(1))
    }
}

/// The first thing that is wrong with the options, given the numbers that the
/// parameters of the raster encoding are.
pub open spec fn options_fault(options: &ConvertOptions, numbers: Seq<Option<u64>>) -> Option<
    OptionsFault,
> {
    let renames = texts(options.rename@);
    if !occurs(options.layer_name_pattern@, "{seq}"@) {
        Some(OptionsFault::LayerPattern)
    } else if options.layer_count == Some(0usize) {
        Some(OptionsFault::LayerCount)
    } else if first_malformed(renames) < renames.len() {
        Some(OptionsFault::Rename(first_malformed(renames)))
    } else {
        match options.raster {
            Some(spec) => match encoding_of(encoding_name(spec@), numbers) {
                Err(fault) => Some(OptionsFault::Raster(fault)),
                Ok(_) => None,
            },
            None => if options.manifest is Some {
                Some(OptionsFault::Manifest)
            } else {
                None
            },
        }
    }
}

/// What a fault of the options looks like to the caller.
pub open spec fn reports_options(
    error: OptionsError,
    fault: OptionsFault,
    options: &ConvertOptions,
) -> bool {
    match (error, fault) {
        (OptionsError::LayerPattern, OptionsFault::LayerPattern) => true,
        (OptionsError::LayerCount, OptionsFault::LayerCount) => true,
        (OptionsError::Rename(RenameError::Malformed { arg }), OptionsFault::Rename(i)) => arg@
            == options.rename@[i]@,
        (OptionsError::Raster(e), OptionsFault::Raster(f)) => options.raster matches Some(spec)
            && reports_request(e, f, encoding_name(spec@), encoding_parts(spec@)),
        (OptionsError::Manifest, OptionsFault::Manifest) => true,
        _ => false,
    }
}

proof fn lemma_first_malformed(args: Seq<Seq<char>>, i: int)
    requires
        0 <= i <= args.len(),
        forall|k: int| 0 <= k < i ==> rename_parts(#[trigger] args[k]) is Some,
        i < args.len() ==> rename_parts(args[i]) is None,
    ensures
        first_malformed(args) == i,
    decreases args.len(),
{
    if i > 0 {
        assert(rename_parts(args[0]) is Some);
        let rest = args.skip(1);
        assert forall|k: int| 0 <= k < i - 1 implies rename_parts(#[trigger] rest[k]) is Some by {
            assert(rest[k] == args[k + 1]);
        }
        lemma_first_malformed(rest, i - 1);
    }
}

/// Checks the options before anything is read, given the numbers that the
/// parameters of the raster encoding are.
pub fn validate_options(options: &ConvertOptions, numbers: &Vec<Option<u64>>) -> (outcome: Result<
    (),
    OptionsError,
>)
    requires
        options.raster matches Some(spec) ==> numbers@.len() == encoding_parts(spec@).len(),
    ensures
        match (outcome, options_fault(options, numbers@)) {
            (Ok(_), None) => true,
            (Err(error), Some(fault)) => reports_options(error, fault, options),
            _ => false,
        },
{
    if !contains(options.layer_name_pattern.as_str(), "{seq}") {
        return Err(OptionsError::LayerPattern);
    }
    if let Some(count) = options.layer_count {
        if count == 0 {
            return Err(OptionsError::LayerCount);
        }
    }
    let mut i: usize = 0;
    while i < options.rename.len()
        invariant
            i <= options.rename@.len(),
            occurs(options.layer_name_pattern@, "{seq}"@),
            options.layer_count != Some(0usize),
            forall|k: int|
                0 <= k < i ==> rename_parts(#[trigger] texts(options.rename@)[k]) is Some,
        decreases options.rename@.len() - i,
    {
        proof {
            assert(texts(options.rename@)[i as int] == options.rename@[i as int]@);
        }
        if let Err(error) = parse_rename(options.rename[i].as_str()) {
            proof {
                lemma_first_malformed(texts(options.rename@), i as int);
            }
            return Err(OptionsError::Rename(error));
        }
        i = i + 1;
    }
    proof {
        lemma_first_malformed(texts(options.rename@), options.rename@.len() as int);
    }
    match &options.raster {
        Some(spec) => {
            let request = encoding_request(spec.as_str());
            match ColorEncoding::from_request(&request, numbers) {
                Ok(_) => Ok(()),
                Err(error) => Err(OptionsError::Raster(error)),
            }
        },
        None => {
            if options.manifest.is_some() {
                return Err(OptionsError::Manifest);
            }
            Ok(())
        },
    }
}

pub(crate) fn names_of(bands: &Vec<BandSpec>) -> (names: Vec<String>)
    ensures
        texts(names@) == band_names(bands@),
{
    let mut names: Vec<String> = Vec::new();
    let mut i: usize = 0;
    while i < bands.len()
        invariant
            i <= bands@.len(),
            names@.len() == i,
            forall|k: int| 0 <= k < i ==> (#[trigger] names@[k])@ == bands@[k].name@,
        decreases bands@.len() - i,
    {
        names.push(bands[i].name.clone());
        i = i + 1;
    }
    assert(texts(names@) =~= band_names(bands@));
    names
}

/// The band has a name of the list, where there is one at its place, and is
/// otherwise as it was.
pub open spec fn takes_name(after: BandSpec, before: BandSpec, names: Seq<Seq<char>>, b: int) -> bool {
    &&& after.name@ == if b < names.len() {
        names[b]
    } else {
        before.name@
    }
    &&& after.reference_value == before.reference_value
    &&& after.binary_scale == before.binary_scale
    &&& after.decimal_scale == before.decimal_scale
    &&& after.min == before.min
    &&& after.max == before.max
}

/// The product differs at most in the names of its bands.
pub open spec fn takes_names(
    after: PreparedProduct,
    before: PreparedProduct,
    names: Seq<Seq<char>>,
) -> bool {
    &&& after.product_id == before.product_id
    &&& after.chunks == before.chunks
    &&& after.spec.name == before.spec.name
    &&& after.spec.base_z == before.spec.base_z
    &&& after.spec.grid_spec == before.spec.grid_spec
    &&& after.spec.aggregation == before.spec.aggregation
    &&& after.spec.quantize == before.spec.quantize
    &&& after.spec.omit_zero == before.spec.omit_zero
    &&& after.spec.omit_class == before.spec.omit_class
    &&& after.spec.bounds == before.spec.bounds
    &&& after.spec.band_specs@.len() == before.spec.band_specs@.len()
    &&& forall|b: int|
        0 <= b < before.spec.band_specs@.len() ==> takes_name(
            #[trigger] after.spec.band_specs@[b],
            before.spec.band_specs@[b],
            names,
            b,
        )
}

fn rename_bands(bands: &mut Vec<BandSpec>, names: &Vec<String>)
    ensures
        final(bands)@.len() == old(bands)@.len(),
        forall|b: int|
            0 <= b < old(bands)@.len() ==> takes_name(
                #[trigger] final(bands)@[b],
                old(bands)@[b],
                texts(names@),
                b,
            ),
{
    let ghost given = bands@;
    let count: usize = bands.len();
    let mut b: usize = 0;
    while b < count && b < names.len()
        invariant
            b <= count,
            b <= names@.len(),
            bands@.len() == count,
            given.len() == count,
            forall|k: int| b <= k < count ==> #[trigger] bands@[k] == given[k],
            forall|k: int|
                0 <= k < b ==> takes_name(#[trigger] bands@[k], given[k], texts(names@), k),
        decreases count - b,
    {
        proof {
            assert(texts(names@)[b as int] == names@[b as int]@);
        }
        bands[b].name = names[b].clone();
        b = b + 1;
    }
}

/// Renames bands before anything downstream reads their names.
///
/// The band name becomes the MVT attribute key and the metadata field name, and
/// `--quantize` selects bands by name, so renaming first keeps all three
/// consistent. `--quantize` therefore refers to the new name. The requests are
/// read against the bands of the first product, and every product takes the
/// names that come out.
pub fn apply_renames(products: &mut Vec<PreparedProduct>, args: &Vec<String>) -> (outcome: Result<
    (),
    RenameError,
>)
    ensures
        final(products)@.len() == old(products)@.len(),
        match outcome {
            Ok(_) => if old(products)@.len() == 0 || args@.len() == 0 {
                final(products)@ == old(products)@
            } else {
                let names = band_names(old(products)@[0].spec.band_specs@);
                &&& renames_hold(names, texts(args@), args@.len() as int)
                &&& forall|i: int|
                    0 <= i < old(products)@.len() ==> takes_names(
                        #[trigger] final(products)@[i],
                        old(products)@[i],
                        renamed(names, texts(args@), args@.len()),
                    )
            },
            Err(error) => {
                &&& final(products)@ == old(products)@
                &&& old(products)@.len() > 0
                &&& exists|after: Seq<Seq<char>>| #[trigger]
                    rename_fails(
                        band_names(old(products)@[0].spec.band_specs@),
                        texts(args@),
                        after,
                        error,
                    )
            },
        },
{
    if args.len() == 0 || products.len() == 0 {
        return Ok(());
    }
    let ghost given = products@;
    let mut names = names_of(&products[0].spec.band_specs);
    match resolve_renames(&mut names, args) {
        Ok(_) => {},
        Err(error) => {
            return Err(error);
        },
    }
    let count: usize = products.len();
    let mut i: usize = 0;
    while i < count
        invariant
            i <= count,
            products@.len() == count,
            given.len() == count,
            forall|k: int| i <= k < count ==> #[trigger] products@[k] == given[k],
            forall|k: int|
                0 <= k < i ==> takes_names(#[trigger] products@[k], given[k], texts(names@)),
        decreases count - i,
    {
        rename_bands(&mut products[i].spec.band_specs, &names);
        i = i + 1;
    }
    Ok(())
}

/// The name of a layer: what stands around the first placeholder stays, the number comes
/// in its place, and a second placeholder is treated the same way. Where there is one,
/// the name says which number it was made for.
pub proof fn lemma_layer_name(before: Seq<char>, behind: Seq<char>, sequence: nat, other: nat)
    requires
        forall|i: int|
            0 <= i < before.len() ==> !#[trigger] occurs_at(
                before + "{seq}"@ + behind,
                "{seq}"@,
                i,
            ),
        !occurs(behind, "{seq}"@),
    ensures
        numbered(before + "{seq}"@ + behind, sequence) == before + decimal(sequence) + behind,
        sequence != other ==> numbered(before + "{seq}"@ + behind, sequence) != numbered(
            before + "{seq}"@ + behind,
            other,
        ),
{
    reveal_strlit("{seq}");
    lemma_replaced(before, behind, "{seq}"@, decimal(sequence));
    lemma_replaced(before, behind, "{seq}"@, decimal(other));
    let (a, b) = (decimal(sequence), decimal(other));
    let (x, y) = (before + a + behind, before + b + behind);
    if x == y {
        assert(x.len() == y.len());
        assert(x.skip(before.len() as int).take(a.len() as int) =~= a);
        assert(y.skip(before.len() as int).take(b.len() as int) =~= b);
        lemma_decimal_injective(sequence, other);
    }
}

/// A request to rename is read at its first equals sign: the old name stands before it and
/// the new one behind it, each without the white space around it. It is refused if and
/// only if there is no such sign or one of the names is empty.
pub proof fn lemma_rename_request(before: Seq<char>, behind: Seq<char>)
    requires
        !before.contains('='),
    ensures
        rename_parts(before) is None,
        rename_parts(before + seq!['='] + behind) == if trimmed(before).len() > 0 && trimmed(
            behind,
        ).len() > 0 {
            Some((trimmed(before), trimmed(behind)))
        } else {
            None
        },
{
    lemma_first_place_found(before, '=');
    let arg = before + seq!['='] + behind;
    lemma_first_place_found(arg, '=');
    let i = first_place(arg, '=');
    if i < before.len() {
        assert(arg[i] == before[i]);
    } else if i > before.len() {
        assert(arg[before.len() as int] != '=');
    }
    assert(arg.take(i) =~= before);
    assert(arg.skip(i + 1) =~= behind);
}

/// What one rename does: the first band of the old name takes the new one and every other
/// keeps its own. It is refused if and only if no band has the old name or some band has
/// the new one.
pub proof fn lemma_renamed_once(names: Seq<Seq<char>>, arg: Seq<char>)
    ensures
        match rename_parts(arg) {
            None => renamed_once(names, arg) == Err::<Seq<Seq<char>>, _>(RenameFault::Malformed),
            Some((from, to)) => {
                &&& !names.contains(from) ==> renamed_once(names, arg) == Err::<Seq<Seq<char>>, _>(
                    RenameFault::UnknownBand,
                )
                &&& names.contains(from) && names.contains(to) ==> renamed_once(names, arg)
                    == Err::<Seq<Seq<char>>, _>(RenameFault::Collision)
                &&& names.contains(from) && !names.contains(to) ==> renamed_once(names, arg) is Ok
                    && renamed_once(names, arg)->Ok_0.len() == names.len() && exists|i: int|
                    0 <= i < names.len() && #[trigger] names[i] == from && renamed_once(
                        names,
                        arg,
                    )->Ok_0[i] == to && (forall|k: int|
                        0 <= k < i ==> #[trigger] names[k] != from) && forall|k: int|
                        0 <= k < names.len() && k != i ==> #[trigger] renamed_once(
                            names,
                            arg,
                        )->Ok_0[k] == names[k]
            },
        },
{
    if let Some((from, to)) = rename_parts(arg) {
        if names.contains(from) && !names.contains(to) {
            lemma_first_name_found(names, from);
            lemma_none_before(names, from);
            let i = first_name(names, from);
            assert(names[i] == from);
        }
    }
}

proof fn lemma_none_before(names: Seq<Seq<char>>, name: Seq<char>)
    ensures
        0 <= first_name(names, name) <= names.len(),
        forall|k: int| 0 <= k < first_name(names, name) ==> #[trigger] names[k] != name,
    decreases names.len(),
{
    if names.len() > 0 && names[0] != name {
        let rest = names.skip(1);
        lemma_none_before(rest, name);
        assert forall|k: int| 0 <= k < first_name(names, name) implies #[trigger] names[k]
            != name by {
            if k > 0 {
                assert(rest[k - 1] == names[k]);
            }
        }
    }
}

/// Renames are met in turn, each on the names that those before it left.
pub proof fn lemma_renamed_in_turn(names: Seq<Seq<char>>, args: Seq<Seq<char>>, n: nat)
    requires
        renames_hold(names, args, n as int),
        n <= args.len(),
    ensures
        renamed(names, args, 0) == names,
        n > 0 ==> renamed_once(renamed(names, args, (n - 1) as nat), args[n - 1]) == Ok::<
            _,
            RenameFault,
        >(renamed(names, args, n)),
{
    if n > 0 {
        assert(renamed_once(renamed(names, args, (n - 1) as nat), args[n - 1]) is Ok);
    }
}

/// A rename that cannot be met is reported by the first request that fails: as it was
/// written, by the name that no band has and the names that there are, or by the name that
/// is taken.
pub proof fn lemma_rename_report(
    names: Seq<Seq<char>>,
    args: Seq<Seq<char>>,
    after: Seq<Seq<char>>,
    error: RenameError,
)
    requires
        rename_fails(names, args, after, error),
    ensures
        exists|k: int|
            #![trigger args[k]]
            0 <= k < args.len() && renames_hold(names, args, k) && after == renamed(
                names,
                args,
                k as nat,
            ) && match (error, rename_parts(args[k])) {
                (RenameError::Malformed { arg }, None) => arg@ == args[k],
                (RenameError::UnknownBand { from, available }, Some((old_name, _))) => from@
                    == old_name && !after.contains(old_name) && texts(available@) == after,
                (RenameError::Collision { to }, Some((old_name, new_name))) => to@ == new_name
                    && after.contains(new_name) && after.contains(old_name),
                _ => false,
            },
{
    let k = choose|k: int| #[trigger] fails_at(names, args, after, error, k);
    lemma_renamed_once(after, args[k]);
    let asked = args[k];
}

/// What is wrong with the options: the first of a pattern without its placeholder, a count
/// of no layers at all, a rename that cannot be read, an encoding that cannot be served,
/// and a manifest without images. With none of these nothing is.
pub proof fn lemma_options_fault(options: &ConvertOptions, numbers: Seq<Option<u64>>)
    ensures
        ({
            let fault = options_fault(options, numbers);
            let pattern_bad = !occurs(options.layer_name_pattern@, "{seq}"@);
            let count_bad = options.layer_count is Some && options.layer_count->0 == 0;
            let encoding = encoding_of(encoding_name(options.raster->0@), numbers);
            let renames_good = forall|i: int|
                0 <= i < options.rename@.len() ==> rename_parts(
                    (#[trigger] options.rename@[i])@,
                ) is Some;
            let sound = !pattern_bad && !count_bad && renames_good;
            &&& pattern_bad <==> fault == Some(OptionsFault::LayerPattern)
            &&& !pattern_bad && count_bad <==> fault == Some(OptionsFault::LayerCount)
            &&& !pattern_bad && !count_bad && !renames_good ==> fault is Some
                && fault->0 is Rename && 0 <= fault->0->Rename_0 < options.rename@.len()
                && rename_parts(options.rename@[fault->0->Rename_0]@) is None && forall|k: int|
                0 <= k < fault->0->Rename_0 ==> rename_parts(
                    (#[trigger] options.rename@[k])@,
                ) is Some
            &&& sound && options.raster is Some && encoding is Err ==> fault == Some(
                OptionsFault::Raster(encoding->Err_0),
            )
            &&& sound && options.raster is Some && encoding is Ok ==> fault is None
            &&& sound && options.raster is None && options.manifest is Some ==> fault == Some(
                OptionsFault::Manifest,
            )
            &&& sound && options.raster is None && options.manifest is None ==> fault is None
        }),
{
    let args = texts(options.rename@);
    lemma_malformed_place(args);
    let m = first_malformed(args);
    assert forall|i: int| 0 <= i < args.len() implies #[trigger] args[i]
        == options.rename@[i]@ by {
    }
    if m < args.len() {
        assert(args[m] == options.rename@[m]@);
    } else {
        assert forall|i: int| 0 <= i < options.rename@.len() implies rename_parts(
            (#[trigger] options.rename@[i])@,
        ) is Some by {
            assert(rename_parts(args[i]) is Some);
        }
    }
    assert forall|k: int| 0 <= k < m implies rename_parts(
        (#[trigger] options.rename@[k])@,
    ) is Some by {
        assert(rename_parts(args[k]) is Some);
    }
}

proof fn lemma_malformed_place(args: Seq<Seq<char>>)
    ensures
        0 <= first_malformed(args) <= args.len(),
        forall|k: int| 0 <= k < first_malformed(args) ==> rename_parts(#[trigger] args[k]) is Some,
        first_malformed(args) < args.len() ==> rename_parts(args[first_malformed(args)]) is None,
    decreases args.len(),
{
    if args.len() > 0 && rename_parts(args[0]) is Some {
        let rest = args.skip(1);
        lemma_malformed_place(rest);
        assert forall|k: int| 0 <= k < first_malformed(args) implies rename_parts(
            #[trigger] args[k],
        ) is Some by {
            if k > 0 {
                assert(rest[k - 1] == args[k]);
            }
        }
    }
}

/// Renaming touches the names of the bands alone: each takes the name at its own place, and
/// all else that a product holds stays.
pub proof fn lemma_names_taken(
    after: PreparedProduct,
    before: PreparedProduct,
    names: Seq<Seq<char>>,
    b: int,
)
    requires
        takes_names(after, before, names),
        0 <= b < before.spec.band_specs@.len(),
        b < names.len(),
    ensures
        after.spec.band_specs@[b].name@ == names[b],
        after.spec.band_specs@[b].reference_value == before.spec.band_specs@[b].reference_value,
        after.spec.band_specs@[b].binary_scale == before.spec.band_specs@[b].binary_scale,
        after.spec.band_specs@[b].decimal_scale == before.spec.band_specs@[b].decimal_scale,
        after.spec.band_specs@[b].min == before.spec.band_specs@[b].min,
        after.spec.band_specs@[b].max == before.spec.band_specs@[b].max,
        after.spec.band_specs@.len() == before.spec.band_specs@.len(),
        after.spec.name == before.spec.name,
        after.spec.base_z == before.spec.base_z,
        after.spec.grid_spec == before.spec.grid_spec,
        after.spec.aggregation == before.spec.aggregation,
        after.spec.quantize == before.spec.quantize,
        after.spec.omit_zero == before.spec.omit_zero,
        after.spec.omit_class == before.spec.omit_class,
        after.spec.bounds == before.spec.bounds,
        after.product_id == before.product_id,
        after.chunks == before.chunks,
{
    assert(takes_name(after.spec.band_specs@[b], before.spec.band_specs@[b], names, b));
}

/// How wrong options are reported: a rename as it was written, an encoding by what is
/// wrong with it.
pub proof fn lemma_options_report(
    error: OptionsError,
    fault: OptionsFault,
    options: &ConvertOptions,
)
    requires
        reports_options(error, fault, options),
    ensures
        match fault {
            OptionsFault::LayerPattern => error is LayerPattern,
            OptionsFault::LayerCount => error is LayerCount,
            OptionsFault::Rename(i) => error is Rename && error->Rename_0 is Malformed
                && error->Rename_0->arg@ == options.rename@[i]@,
            OptionsFault::Raster(f) => error is Raster && options.raster is Some && reports_request(
                error->Raster_0,
                f,
                encoding_name(options.raster->0@),
                encoding_parts(options.raster->0@),
            ),
            OptionsFault::Manifest => error is Manifest,
        },
{
}

/// What is said of a rename that cannot be met: the request as it was written, the name
/// that no band has with all the names in their order, or the name that is taken, each of
/// them quoted.
pub proof fn lemma_rename_message(error: RenameError)
    ensures
        match error {
            RenameError::Malformed { arg } => error.text()
                == "--rename expects <from>=<to> but found "@ + debug_text(arg@),
            RenameError::UnknownBand { from, available } => error.text() == "unknown band "@
                + debug_text(from@) + " in --rename; this product has "@ + joined(
                Seq::new(available@.len(), |i: int| debug_text(available@[i]@)),
                ", "@,
            ),
            RenameError::Collision { to } => error.text() == "--rename target "@ + debug_text(to@)
                + " collides with another band of this product"@,
        },
{
    if let RenameError::UnknownBand { from, available } = error {
        assert(texts(available@).map_values(|t: Seq<char>| debug_text(t)) =~= Seq::new(
            available@.len(),
            |i: int| debug_text(available@[i]@),
        ));
    }
}

} // verus!
