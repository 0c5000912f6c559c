//! What a conversion writes, once its products are known: the encoding, the
//! zooms, the archives and the bytes of a tile.

use vstd::prelude::*;

use vstd::string::StringExecFns;

use crate::double::{
    equal, greater, is_equal, is_less, is_nan, lemma_extremes, lemma_order, lesser, max, min,
};
use crate::grib::equal_bits;
use crate::model::{band_names, LngLatGrid, PreparedProduct};
use crate::options::{names_of, ConvertOptions};
use crate::paths::{all_dated, output_paths, raster_output_paths, OutputPathError, Paths};
use crate::raster::{
    encoding_name, encoding_of, encoding_parts, encoding_request, reports_request, ColorEncoding,
    RequestError, RequestFault,
};
use crate::text::texts;

verus! {

/// The kind of tiles that are made.
#[derive(Clone, Copy, Debug, PartialEq, Eq, Structural)]
pub enum TileOutput {
    Mvt,
    Raster(ColorEncoding),
}

/// How the tiles of an archive are stored.
#[derive(Clone, Copy, Debug, PartialEq, Eq, Structural)]
pub enum TileStorage {
    /// Vector tiles, compressed with gzip.
    GzippedMvt,
    /// Images. A PNG is already deflated; gzipping it again only costs time.
    PlainPng,
}

impl TileOutput {
    pub fn storage(&self) -> (storage: TileStorage)
        ensures
            storage == match *self {
                TileOutput::Mvt => TileStorage::GzippedMvt,
                TileOutput::Raster(_) => TileStorage::PlainPng,
            },
    {
        match self {
            TileOutput::Mvt => TileStorage::GzippedMvt,
            TileOutput::Raster(_) => TileStorage::PlainPng,
        }
    }
}

/// The two grids are the same.
pub open spec fn same_grid(a: LngLatGrid, b: LngLatGrid) -> bool {
    &&& is_equal(a.lng_0, b.lng_0)
    &&& is_equal(a.lat_0, b.lat_0)
    &&& equal_bits(a.lng_denom, b.lng_denom)
    &&& equal_bits(a.lat_denom, b.lat_denom)
}

fn equal_single(a: u32, b: u32) -> (r: bool)
    ensures
        r == equal_bits(a, b),
{
    let a_nan = (a > 0x7f80_0000 && a < 0x8000_0000) || a > 0xff80_0000;
    let b_nan = (b > 0x7f80_0000 && b < 0x8000_0000) || b > 0xff80_0000;
    !a_nan && !b_nan && (a == b || ((a == 0 || a == 0x8000_0000) && (b == 0 || b == 0x8000_0000)))
}

/// The product can stand in one archive with the first.
pub open spec fn is_compatible(first: PreparedProduct, other: PreparedProduct) -> bool {
    first.spec.base_z == other.spec.base_z && same_grid(other.spec.grid_spec, first.spec.grid_spec)
}

/// Two products lie on different grids.
#[derive(Debug)]
pub struct IncompatibleGrids {
    pub first: String,
    pub other: String,
}

/// Product `k` is the first that does not fit the first product.
pub open spec fn misfits_first(products: Seq<PreparedProduct>, error: IncompatibleGrids, k: int) -> bool {
    &&& 1 <= k < products.len()
    &&& !is_compatible(products[0], products[k])
    &&& forall|j: int| 1 <= j < k ==> is_compatible(products[0], #[trigger] products[j])
    &&& error.first@ == products[0].spec.name@
    &&& error.other@ == products[k].spec.name@
}

pub open spec fn misfits(products: Seq<PreparedProduct>, error: IncompatibleGrids) -> bool {
    exists|k: int| #[trigger] misfits_first(products, error, k)
}

/// Checks that the products lie on one grid and were cut into the same tiles.
pub fn ensure_compatible_products(products: &Vec<PreparedProduct>) -> (outcome: Result<
    (),
    IncompatibleGrids,
>)
    requires
        products@.len() > 0,
    ensures
        match outcome {
            Ok(_) => forall|j: int|
                1 <= j < products@.len() ==> is_compatible(products@[0], #[trigger] products@[j]),
            Err(error) => misfits(products@, error),
        },
{
    let mut i: usize = 1;
    while i < products.len()
        invariant
            1 <= i <= products@.len(),
            forall|j: int| 1 <= j < i ==> is_compatible(products@[0], #[trigger] products@[j]),
        decreases products@.len() - i,
    {
        let first = &products[0].spec;
        let other = &products[i].spec;
        let same = first.base_z == other.base_z && equal(
            other.grid_spec.lng_0,
            first.grid_spec.lng_0,
        ) && equal(other.grid_spec.lat_0, first.grid_spec.lat_0) && equal_single(
            other.grid_spec.lng_denom,
            first.grid_spec.lng_denom,
        ) && equal_single(other.grid_spec.lat_denom, first.grid_spec.lat_denom);
        if !same {
            let error = IncompatibleGrids { first: first.name.clone(), other: other.name.clone() };
            assert(misfits_first(products@, error, i as int));
            return Err(error);
        }
        i = i + 1;
    }
    Ok(())
}

/// The largest double and the least.
pub const DOUBLE_MAX: u64 = 0x7fef_ffff_ffff_ffff;

pub const DOUBLE_MIN: u64 = 0xffef_ffff_ffff_ffff;

/// Ninety degrees, and as many below the equator.
pub const NORTH_POLE: u64 = 0x4056_8000_0000_0000;

pub const SOUTH_POLE: u64 = 0xc056_8000_0000_0000;

/// The least of the products' bounds on one side.
pub open spec fn least_bound(products: Seq<PreparedProduct>, side: int) -> u64
    decreases products.len(),
{
    if products.len() == 0 {
        DOUBLE_MAX
    } else {
        lesser(least_bound(products.drop_last(), side), products.last().spec.bounds@[side])
    }
}

/// The greatest of the products' bounds on one side.
pub open spec fn greatest_bound(products: Seq<PreparedProduct>, side: int) -> u64
    decreases products.len(),
{
    if products.len() == 0 {
        DOUBLE_MIN
    } else {
        greater(greatest_bound(products.drop_last(), side), products.last().spec.bounds@[side])
    }
}

/// The bounds that hold all the products: west, south, east and north, with the
/// latitudes cut at the poles. The longitudes are in the products' own frame.
pub fn outer_bounds(products: &Vec<PreparedProduct>) -> (bounds: [u64; 4])
    ensures
        bounds@[0] == least_bound(products@, 0),
        bounds@[1] == greater(least_bound(products@, 1), SOUTH_POLE),
        bounds@[2] == greatest_bound(products@, 2),
        bounds@[3] == lesser(greatest_bound(products@, 3), NORTH_POLE),
{
    let mut west: u64 = DOUBLE_MAX;
    let mut south: u64 = DOUBLE_MAX;
    let mut east: u64 = DOUBLE_MIN;
    let mut north: u64 = DOUBLE_MIN;
    let mut i: usize = 0;
    proof {
        assert(products@.take(0) =~= Seq::empty());
    }
    while i < products.len()
        invariant
            i <= products@.len(),
            west == least_bound(products@.take(i as int), 0),
            south == least_bound(products@.take(i as int), 1),
            east == greatest_bound(products@.take(i as int), 2),
            north == greatest_bound(products@.take(i as int), 3),
        decreases products@.len() - i,
    {
        proof {
            assert(products@.take(i + 1).drop_last() =~= products@.take(i as int));
            assert(products@.take(i + 1).last() == products@[i as int]);
        }
        let bounds = products[i].spec.bounds;
        west = min(west, bounds[0]);
        south = min(south, bounds[1]);
        east = max(east, bounds[2]);
        north = max(north, bounds[3]);
        i = i + 1;
    }
    assert(products@.take(products@.len() as int) =~= products@);
    [west, max(south, SOUTH_POLE), east, min(north, NORTH_POLE)]
}

/// The zoom at which a client opens the archive lies among its zooms.
pub fn opening_zoom(center_zoom: u8, min_zoom: u8, max_zoom: u8) -> (zoom: u8)
    requires
        min_zoom <= max_zoom,
    ensures
        min_zoom <= zoom <= max_zoom,
        min_zoom <= center_zoom <= max_zoom ==> zoom == center_zoom,
        center_zoom < min_zoom ==> zoom == min_zoom,
        center_zoom > max_zoom ==> zoom == max_zoom,
{
    if center_zoom < min_zoom {
        min_zoom
    } else if center_zoom > max_zoom {
        max_zoom
    } else {
        center_zoom
    }
}

/// The largest of the zooms, or another where there are none.
pub open spec fn largest_zoom(zooms: Seq<u8>, otherwise: u8) -> u8
    decreases zooms.len(),
{
    if zooms.len() == 0 {
        otherwise
    } else if zooms.len() == 1 {
        zooms[0]
    } else {
        let before = largest_zoom(zooms.drop_last(), otherwise);
        if before < zooms.last() {
            zooms.last()
        } else {
            before
        }
    }
}

/// The highest zoom: the one that is asked for, or the finest that a product
/// resolves.
pub open spec fn highest_zoom(options: &ConvertOptions, native: Seq<u8>) -> u8 {
    match options.max_zoom {
        Some(zoom) => zoom,
        None => largest_zoom(native, options.min_zoom),
    }
}

fn resolve_max_zoom(options: &ConvertOptions, native: &Vec<u8>) -> (zoom: u8)
    ensures
        zoom == highest_zoom(options, native@),
{
    match options.max_zoom {
        Some(zoom) => zoom,
        None => {
            if native.len() == 0 {
                return options.min_zoom;
            }
            let mut largest: u8 = native[0];
            let mut i: usize = 1;
            assert(native@.take(1) =~= seq![native@[0]]);
            while i < native.len()
                invariant
                    1 <= i <= native@.len(),
                    largest == largest_zoom(native@.take(i as int), options.min_zoom),
                decreases native@.len() - i,
            {
                proof {
                    assert(native@.take(i + 1).drop_last() =~= native@.take(i as int));
                    assert(native@.take(i + 1).last() == native@[i as int]);
                }
                if largest < native[i] {
                    largest = native[i];
                }
                i = i + 1;
            }
            assert(native@.take(native@.len() as int) =~= native@);
            largest
        },
    }
}

/// One archive: its path, unless it is the one that was given, the products that
/// it holds, and its number among the forecast times.
#[derive(Debug)]
pub struct ArchivePlan {
    pub path: Option<String>,
    pub first: usize,
    pub count: usize,
    pub sequence: Option<usize>,
}

/// What a conversion writes.
#[derive(Debug)]
pub struct ConversionPlan {
    pub output: TileOutput,
    pub max_zoom: u8,
    pub archives: Vec<ArchivePlan>,
}

/// Why a conversion cannot be carried out.
#[derive(Debug)]
pub enum PlanError {
    /// The lowest zoom is above the highest.
    Zooms { min_zoom: u8, max_zoom: u8 },
    /// The raster encoding cannot be served.
    Request(RequestError),
    /// The output paths cannot be made.
    Paths(OutputPathError),
}

/// What stands in the way of a conversion.
pub enum PlanFault {
    Zooms,
    Request(RequestFault),
    Bands,
    Paths(Paths),
}

/// The output paths are there.
pub open spec fn is_usable(paths: Paths) -> bool {
    paths is AsGiven || paths is Each
}

/// What stands in the way of the conversion, if anything does.
pub open spec fn plan_fault(
    options: &ConvertOptions,
    products: Seq<PreparedProduct>,
    native: Seq<u8>,
    numbers: Seq<Option<u64>>,
    pattern: Option<Seq<char>>,
) -> Option<PlanFault> {
    if options.min_zoom > highest_zoom(options, native) {
        Some(PlanFault::Zooms)
    } else {
        match options.raster {
            None => None,
            Some(spec) => match encoding_of(encoding_name(spec@), numbers) {
                Err(fault) => Some(PlanFault::Request(fault)),
                Ok(encoding) => {
                    let paths = output_paths(pattern, products, options.layer_seq_start);
                    if !encoding.means(band_names(products[0].spec.band_specs@)) {
                        Some(PlanFault::Bands)
                    } else if !is_usable(paths) {
                        Some(PlanFault::Paths(paths))
                    } else {
                        None
                    }
                },
            },
        }
    }
}

/// What a fault looks like to the caller.
pub open spec fn reports_plan(
    error: PlanError,
    fault: PlanFault,
    options: &ConvertOptions,
    products: Seq<PreparedProduct>,
    native: Seq<u8>,
) -> bool {
    match (error, fault) {
        (PlanError::Zooms { min_zoom, max_zoom }, PlanFault::Zooms) => min_zoom
            == options.min_zoom && max_zoom == highest_zoom(options, native),
        (PlanError::Request(e), PlanFault::Request(f)) => options.raster matches Some(spec)
            && reports_request(e, f, encoding_name(spec@), encoding_parts(spec@)),
        (PlanError::Request(RequestError::Bands { names }), PlanFault::Bands) => texts(names@)
            == band_names(products[0].spec.band_specs@),
        (PlanError::Paths(OutputPathError::NotText), PlanFault::Paths(Paths::NotText)) => true,
        (
            PlanError::Paths(OutputPathError::NoPlaceholder { count }),
            PlanFault::Paths(Paths::NoPlaceholder),
        ) => count == products.len(),
        (
            PlanError::Paths(OutputPathError::SequenceOverflow),
            PlanFault::Paths(Paths::SequenceOverflow),
        ) => true,
        (PlanError::Paths(OutputPathError::Duplicate), PlanFault::Paths(Paths::Duplicate)) => true,
        _ => false,
    }
}

/// The archive is the one that is meant.
pub open spec fn is_archive(
    archive: ArchivePlan,
    path: Option<Seq<char>>,
    first: int,
    count: int,
    sequence: Option<int>,
) -> bool {
    &&& match (archive.path, path) {
        (Some(a), Some(b)) => a@ == b,
        (None, None) => true,
        _ => false,
    }
    &&& archive.first == first
    &&& archive.count == count
    &&& match (archive.sequence, sequence) {
        (Some(a), Some(b)) => a == b,
        (None, None) => true,
        _ => false,
    }
}

/// The archives of a conversion: one that holds all the products for vector
/// tiles, and one for each forecast time for images.
pub open spec fn are_archives(
    archives: Seq<ArchivePlan>,
    output: TileOutput,
    paths: Paths,
    count: int,
    start: int,
) -> bool {
    match (output, paths) {
        (TileOutput::Mvt, _) => archives.len() == 1 && is_archive(archives[0], None, 0, count, None),
        (TileOutput::Raster(_), Paths::Each(each)) => {
            &&& archives.len() == each.len()
            &&& forall|i: int|
                0 <= i < archives.len() ==> is_archive(
                    #[trigger] archives[i],
                    Some(each[i]),
                    i,
                    1,
                    Some(start + i),
                )
        },
        _ => archives.len() == 1 && is_archive(archives[0], None, 0, 1, Some(start)),
    }
}

/// Decides what a conversion writes: the encoding, the zooms and the archives.
///
/// `native` holds the finest zoom that each product resolves, `numbers` what the
/// parameters of the raster encoding are, and `pattern` the output path where it
/// is text.
pub fn plan_conversion(
    options: &ConvertOptions,
    products: &Vec<PreparedProduct>,
    native: &Vec<u8>,
    numbers: &Vec<Option<u64>>,
    pattern: Option<&str>,
) -> (outcome: Result<ConversionPlan, PlanError>)
    requires
        products@.len() > 0,
        all_dated(products@),
        options.layer_seq_start + products@.len() <= usize::MAX,
        options.raster matches Some(spec) ==> numbers@.len() == encoding_parts(spec@).len(),
    ensures
        ({
            let path = match pattern {
                Some(text) => Some(text@),
                None => None,
            };
            match (outcome, plan_fault(options, products@, native@, numbers@, path)) {
                (Ok(plan), None) => {
                    &&& plan.max_zoom == highest_zoom(options, native@)
                    &&& match (options.raster, plan.output) {
                        (None, TileOutput::Mvt) => true,
                        (Some(spec), TileOutput::Raster(encoding)) => encoding_of(
                            encoding_name(spec@),
                            numbers@,
                        ) == Ok::<ColorEncoding, RequestFault>(encoding),
                        _ => false,
                    }
                    &&& are_archives(
                        plan.archives@,
                        plan.output,
                        output_paths(path, products@, options.layer_seq_start),
                        products@.len() as int,
                        options.layer_seq_start as int,
                    )
                },
                (Err(error), Some(fault)) => reports_plan(
                    error,
                    fault,
                    options,
                    products@,
                    native@,
                ),
                _ => false,
            }
        }),
{
    let max_zoom: u8 = resolve_max_zoom(options, native);
    if options.min_zoom > max_zoom {
        return Err(PlanError::Zooms { min_zoom: options.min_zoom, max_zoom });
    }
    let spec = match &options.raster {
        Some(spec) => spec,
        None => {
            let mut archives: Vec<ArchivePlan> = Vec::new();
            archives.push(
                ArchivePlan { path: None, first: 0, count: products.len(), sequence: None },
            );
            return Ok(ConversionPlan { output: TileOutput::Mvt, max_zoom, archives });
        },
    };
    let request = encoding_request(spec.as_str());
    let encoding = match ColorEncoding::from_request(&request, numbers) {
        Ok(encoding) => encoding,
        Err(error) => {
            return Err(PlanError::Request(error));
        },
    };
    let names = names_of(&products[0].spec.band_specs);
    match encoding.check_bands(&names) {
        Ok(_) => {},
        Err(error) => {
            return Err(PlanError::Request(error));
        },
    }
    let start: usize = options.layer_seq_start;
    let paths = match raster_output_paths(pattern, products, start) {
        Ok(paths) => paths,
        Err(error) => {
            return Err(PlanError::Paths(error));
        },
    };
    let mut archives: Vec<ArchivePlan> = Vec::new();
    match paths {
        None => {
            archives.push(ArchivePlan { path: None, first: 0, count: 1, sequence: Some(start) });
        },
        Some(paths) => {
            assert(texts(paths@).len() == products@.len());
            let mut i: usize = 0;
            while i < paths.len()
                invariant
                    i <= paths@.len(),
                    paths@.len() == products@.len(),
                    start + products@.len() <= usize::MAX,
                    archives@.len() == i,
                    forall|k: int|
                        0 <= k < i ==> is_archive(
                            #[trigger] archives@[k],
                            Some(texts(paths@)[k]),
                            k,
                            1,
                            Some(start + k),
                        ),
                decreases paths@.len() - i,
            {
                archives.push(
                    ArchivePlan {
                        path: Some(paths[i].clone()),
                        first: i,
                        count: 1,
                        sequence: Some(start + i),
                    },
                );
                i = i + 1;
            }
        },
    }
    Ok(ConversionPlan { output: TileOutput::Raster(encoding), max_zoom, archives })
}

/// The bytes of layers.
pub open spec fn bytes_of(layers: Seq<Vec<u8>>) -> Seq<Seq<u8>> {
    layers.map_values(|layer: Vec<u8>| layer@)
}

/// Layers one behind another.
pub open spec fn concatenated(layers: Seq<Seq<u8>>) -> Seq<u8>
    decreases layers.len(),
{
    if layers.len() == 0 {
        Seq::empty()
    } else {
        concatenated(layers.drop_last()) + layers.last()
    }
}

/// The gzip stream that `flate2` makes of bytes at its default compression, or
/// nothing where it fails to.
pub uninterp spec fn gzip_stream(bytes: Seq<u8>) -> Option<Seq<u8>>;

/// Compresses bytes with `flate2`'s `write::GzEncoder` into memory, at the default
/// compression: `write_all` and `finish`. The stream carries no time, so it
/// depends on the bytes alone; the stream itself is not stated.
#[verifier::external_body]
fn gzip(bytes: &Vec<u8>) -> (stream: Option<Vec<u8>>)
    ensures
        match stream {
            Some(stream) => gzip_stream(bytes@) == Some(stream@),
            None => gzip_stream(bytes@) is None,
        },
{
    let mut encoder = flate2::write::GzEncoder::new(Vec::new(), flate2::Compression::default());
    std::io::Write::write_all(&mut encoder, bytes).ok()?;
    encoder.finish().ok()
}

/// A tile could not be compressed.
#[derive(Clone, Copy, Debug, PartialEq, Eq, Structural)]
pub struct CompressionError;

/// The bytes of a tile that has any layers: vector layers concatenate into one
/// tile, which is stored gzipped; an image is stored as it comes out.
pub fn tile_bytes(output: TileOutput, layers: &Vec<Vec<u8>>) -> (tile: Result<
    Option<Vec<u8>>,
    CompressionError,
>)
    ensures
        match (tile, output) {
            (Ok(None), _) => layers@.len() == 0,
            (Ok(Some(bytes)), TileOutput::Mvt) => layers@.len() > 0 && gzip_stream(
                concatenated(bytes_of(layers@)),
            ) == Some(bytes@),
            (Ok(Some(bytes)), TileOutput::Raster(_)) => layers@.len() > 0 && bytes@
                == layers@[0]@,
            (Err(_), TileOutput::Mvt) => layers@.len() > 0 && gzip_stream(
                concatenated(bytes_of(layers@)),
            ) is None,
            (Err(_), TileOutput::Raster(_)) => false,
        },
{
    if layers.len() == 0 {
        return Ok(None);
    }
    match output {
        TileOutput::Mvt => {
            let joined = join_layers(layers);
            match gzip(&joined) {
                Some(stream) => Ok(Some(stream)),
                None => Err(CompressionError),
            }
        },
        TileOutput::Raster(_) => {
            let mut bytes: Vec<u8> = Vec::new();
            append_bytes(&mut bytes, &layers[0]);
            assert(bytes@ =~= layers@[0]@);
            Ok(Some(bytes))
        },
    }
}

fn append_bytes(target: &mut Vec<u8>, more: &Vec<u8>)
    ensures
        final(target)@ == old(target)@ + more@,
{
    let ghost before = target@;
    let mut i: usize = 0;
    while i < more.len()
        invariant
            i <= more@.len(),
            target@ == before + more@.take(i as int),
        decreases more@.len() - i,
    {
        target.push(more[i]);
        proof {
            assert(more@.take(i + 1) =~= more@.take(i as int).push(more@[i as int]));
        }
        i = i + 1;
    }
    assert(more@.take(more@.len() as int) =~= more@);
}

/// Puts layers one behind another.
pub fn join_layers(layers: &Vec<Vec<u8>>) -> (joined: Vec<u8>)
    ensures
        joined@ == concatenated(bytes_of(layers@)),
{
    let mut joined: Vec<u8> = Vec::new();
    let mut i: usize = 0;
    proof {
        assert(bytes_of(layers@.take(0)) =~= Seq::empty());
    }
    while i < layers.len()
        invariant
            i <= layers@.len(),
            joined@ == concatenated(bytes_of(layers@.take(i as int))),
        decreases layers@.len() - i,
    {
        proof {
            assert(bytes_of(layers@.take(i + 1)).drop_last() =~= bytes_of(layers@.take(i as int)));
            assert(bytes_of(layers@.take(i + 1)).last() == layers@[i as int]@);
        }
        append_bytes(&mut joined, &layers[i]);
        i = i + 1;
    }
    assert(layers@.take(layers@.len() as int) =~= layers@);
    joined
}

/// The bounds of all the products hold those of each: none lies further west or south, and
/// none further east or north, but for what lies beyond a pole. Each bound is that of some
/// product, as long as there is one with a number there.
pub proof fn lemma_outer_bounds(products: Seq<PreparedProduct>, i: int)
    requires
        0 <= i < products.len(),
    ensures
        ({
            let own = products[i].spec.bounds@;
            let south = greater(least_bound(products, 1), SOUTH_POLE);
            let north = lesser(greatest_bound(products, 3), NORTH_POLE);
            &&& !is_nan(own[0]) ==> !is_less(own[0], least_bound(products, 0))
            &&& !is_nan(own[2]) ==> !is_less(greatest_bound(products, 2), own[2])
            &&& !is_less(south, 0xc056_8000_0000_0000) && !is_less(0x4056_8000_0000_0000, north)
            &&& !is_nan(own[1]) && is_less(0xc056_8000_0000_0000, south) ==> !is_less(own[1], south)
            &&& !is_nan(own[3]) && is_less(north, 0x4056_8000_0000_0000) ==> !is_less(north, own[3])
            &&& least_bound(products, 0) == 0x7fef_ffff_ffff_ffff || exists|k: int|
                0 <= k < products.len() && (#[trigger] products[k]).spec.bounds@[0] == least_bound(
                    products,
                    0,
                )
            &&& greatest_bound(products, 2) == 0xffef_ffff_ffff_ffff || exists|k: int|
                0 <= k < products.len() && (#[trigger] products[k]).spec.bounds@[2]
                    == greatest_bound(products, 2)
            &&& south == 0xc056_8000_0000_0000 || south == 0x7fef_ffff_ffff_ffff || exists|k: int|
                0 <= k < products.len() && (#[trigger] products[k]).spec.bounds@[1] == south
            &&& north == 0x4056_8000_0000_0000 || north == 0xffef_ffff_ffff_ffff || exists|k: int|
                0 <= k < products.len() && (#[trigger] products[k]).spec.bounds@[3] == north
        }),
{
    lemma_least_bound(products, 0);
    lemma_least_bound(products, 1);
    lemma_greatest_bound(products, 2);
    lemma_greatest_bound(products, 3);
    lemma_extremes(least_bound(products, 1), SOUTH_POLE);
    lemma_extremes(greatest_bound(products, 3), NORTH_POLE);
}

proof fn lemma_least_bound(products: Seq<PreparedProduct>, side: int)
    ensures
        !is_nan(least_bound(products, side)),
        forall|i: int|
            0 <= i < products.len() && !is_nan((#[trigger] products[i]).spec.bounds@[side])
                ==> !is_less(products[i].spec.bounds@[side], least_bound(products, side)),
        least_bound(products, side) == 0x7fef_ffff_ffff_ffff || exists|i: int|
            0 <= i < products.len() && (#[trigger] products[i]).spec.bounds@[side] == least_bound(
                products,
                side,
            ),
    decreases products.len(),
{
    if products.len() > 0 {
        let rest = products.drop_last();
        let n = products.len() - 1;
        lemma_least_bound(rest, side);
        lemma_extremes(least_bound(rest, side), products[n].spec.bounds@[side]);
        assert forall|i: int|
            0 <= i < products.len() && !is_nan(
                (#[trigger] products[i]).spec.bounds@[side],
            ) implies !is_less(products[i].spec.bounds@[side], least_bound(products, side)) by {
            if i < n {
                assert(rest[i] == products[i]);
            }
        }
        if exists|i: int|
            0 <= i < rest.len() && (#[trigger] rest[i]).spec.bounds@[side] == least_bound(
                rest,
                side,
            ) {
            let i = choose|i: int|
                0 <= i < rest.len() && (#[trigger] rest[i]).spec.bounds@[side] == least_bound(
                    rest,
                    side,
                );
            assert(rest[i] == products[i]);
        }
    }
}

proof fn lemma_greatest_bound(products: Seq<PreparedProduct>, side: int)
    ensures
        !is_nan(greatest_bound(products, side)),
        forall|i: int|
            0 <= i < products.len() && !is_nan((#[trigger] products[i]).spec.bounds@[side])
                ==> !is_less(greatest_bound(products, side), products[i].spec.bounds@[side]),
        greatest_bound(products, side) == 0xffef_ffff_ffff_ffff || exists|i: int|
            0 <= i < products.len() && (#[trigger] products[i]).spec.bounds@[side]
                == greatest_bound(products, side),
    decreases products.len(),
{
    if products.len() > 0 {
        let rest = products.drop_last();
        let n = products.len() - 1;
        lemma_greatest_bound(rest, side);
        lemma_extremes(greatest_bound(rest, side), products[n].spec.bounds@[side]);
        assert forall|i: int|
            0 <= i < products.len() && !is_nan(
                (#[trigger] products[i]).spec.bounds@[side],
            ) implies !is_less(greatest_bound(products, side), products[i].spec.bounds@[side]) by {
            if i < n {
                assert(rest[i] == products[i]);
            }
        }
        if exists|i: int|
            0 <= i < rest.len() && (#[trigger] rest[i]).spec.bounds@[side] == greatest_bound(
                rest,
                side,
            ) {
            let i = choose|i: int|
                0 <= i < rest.len() && (#[trigger] rest[i]).spec.bounds@[side] == greatest_bound(
                    rest,
                    side,
                );
            assert(rest[i] == products[i]);
        }
    }
}

/// Products fit one archive if and only if they were cut at the same zoom and their grids
/// agree in both coordinates of their first point and in both of their steps, as numbers:
/// a zero of either sign is the same, and what is no number agrees with nothing.
pub proof fn lemma_compatible(first: PreparedProduct, other: PreparedProduct)
    ensures
        is_compatible(first, other) <==> ({
            let (a, b) = (first.spec.grid_spec, other.spec.grid_spec);
            &&& first.spec.base_z == other.spec.base_z
            &&& !is_nan(a.lng_0) && (a.lng_0 == b.lng_0 || a.lng_0 % 0x8000_0000_0000_0000 == 0
                && b.lng_0 % 0x8000_0000_0000_0000 == 0)
            &&& !is_nan(a.lat_0) && (a.lat_0 == b.lat_0 || a.lat_0 % 0x8000_0000_0000_0000 == 0
                && b.lat_0 % 0x8000_0000_0000_0000 == 0)
            &&& a.lng_denom % 0x8000_0000 <= 0x7f80_0000 && (a.lng_denom == b.lng_denom
                || a.lng_denom % 0x8000_0000 == 0 && b.lng_denom % 0x8000_0000 == 0)
            &&& a.lat_denom % 0x8000_0000 <= 0x7f80_0000 && (a.lat_denom == b.lat_denom
                || a.lat_denom % 0x8000_0000 == 0 && b.lat_denom % 0x8000_0000 == 0)
        }),
{
    let (a, b) = (first.spec.grid_spec, other.spec.grid_spec);
    lemma_order(a.lng_0, b.lng_0);
    lemma_order(a.lat_0, b.lat_0);
}

/// The highest zoom: the one that is asked for, or else the finest that any product
/// resolves, or the lowest zoom where there is none.
pub proof fn lemma_highest_zoom(options: &ConvertOptions, native: Seq<u8>)
    ensures
        options.max_zoom matches Some(zoom) ==> highest_zoom(options, native) == zoom,
        options.max_zoom is None && native.len() == 0 ==> highest_zoom(options, native)
            == options.min_zoom,
        options.max_zoom is None && native.len() > 0 ==> {
            &&& native.contains(highest_zoom(options, native))
            &&& forall|i: int|
                0 <= i < native.len() ==> #[trigger] native[i] <= highest_zoom(options, native)
        },
{
    if native.len() > 0 {
        lemma_largest_zoom(native, options.min_zoom);
    }
}

proof fn lemma_largest_zoom(zooms: Seq<u8>, otherwise: u8)
    requires
        zooms.len() > 0,
    ensures
        zooms.contains(largest_zoom(zooms, otherwise)),
        forall|i: int| 0 <= i < zooms.len() ==> #[trigger] zooms[i] <= largest_zoom(zooms, otherwise),
    decreases zooms.len(),
{
    if zooms.len() > 1 {
        let rest = zooms.drop_last();
        lemma_largest_zoom(rest, otherwise);
        let i = choose|i: int| 0 <= i < rest.len() && rest[i] == largest_zoom(rest, otherwise);
        assert(zooms[i] == rest[i]);
        assert forall|i: int| 0 <= i < zooms.len() implies #[trigger] zooms[i] <= largest_zoom(
            zooms,
            otherwise,
        ) by {
            if i < rest.len() {
                assert(rest[i] == zooms[i]);
            }
        }
    } else {
        assert(zooms[0] == largest_zoom(zooms, otherwise));
    }
}

/// What stands in the way of a conversion, and what does not. The zooms come first, then
/// the encoding, then the bands, then the paths; vector tiles depend on the zooms alone.
pub proof fn lemma_plan_fault(
    options: &ConvertOptions,
    products: Seq<PreparedProduct>,
    native: Seq<u8>,
    numbers: Seq<Option<u64>>,
    pattern: Option<Seq<char>>,
)
    ensures
        ({
            let fault = plan_fault(options, products, native, numbers, pattern);
            let zooms_cross = options.min_zoom > highest_zoom(options, native);
            let encoding = encoding_of(encoding_name(options.raster->0@), numbers);
            let paths = output_paths(pattern, products, options.layer_seq_start);
            let fits = encoding is Ok && encoding->Ok_0.means(
                band_names(products[0].spec.band_specs@),
            );
            &&& zooms_cross <==> fault == Some(PlanFault::Zooms)
            &&& options.raster is None && !zooms_cross ==> fault is None
            &&& options.raster is Some && !zooms_cross ==> {
                &&& encoding is Err <==> fault == Some(PlanFault::Request(encoding->Err_0))
                &&& encoding is Ok && !fits <==> fault == Some(PlanFault::Bands)
                &&& fits && !(paths is AsGiven || paths is Each) ==> fault == Some(
                    PlanFault::Paths(paths),
                )
                &&& fits && (paths is AsGiven || paths is Each) <==> fault is None
            }
        }),
{
}

/// How a fault is reported: crossed zooms by both of them, bands by the names that the
/// first product has, paths by the fault in them and one without a placeholder by how
/// many there would be.
pub proof fn lemma_plan_report(
    error: PlanError,
    fault: PlanFault,
    options: &ConvertOptions,
    products: Seq<PreparedProduct>,
    native: Seq<u8>,
)
    requires
        reports_plan(error, fault, options, products, native),
    ensures
        match fault {
            PlanFault::Zooms => error is Zooms && error->min_zoom == options.min_zoom
                && error->max_zoom == highest_zoom(options, native),
            PlanFault::Request(f) => error is Request && options.raster is Some && reports_request(
                error->Request_0,
                f,
                encoding_name(options.raster->0@),
                encoding_parts(options.raster->0@),
            ),
            PlanFault::Bands => error is Request && error->Request_0 is Bands && texts(
                error->Request_0->names@,
            ) == band_names(products[0].spec.band_specs@),
            PlanFault::Paths(paths) => error is Paths && match paths {
                Paths::NotText => error->Paths_0 is NotText,
                Paths::NoPlaceholder => error->Paths_0 is NoPlaceholder && error->Paths_0->count
                    == products.len(),
                Paths::SequenceOverflow => error->Paths_0 is SequenceOverflow,
                Paths::Duplicate => error->Paths_0 is Duplicate,
                _ => false,
            },
        },
{
}

/// The archives. Vector tiles go into one archive at the path that was given, which holds
/// every product and has no number. Images go into one archive for each product, in their
/// order, with a path of its own and numbers that count on from the first; where the path
/// is used as given there is one archive alone, for the first product.
pub proof fn lemma_archives(
    archives: Seq<ArchivePlan>,
    output: TileOutput,
    paths: Paths,
    count: int,
    start: int,
)
    requires
        are_archives(archives, output, paths, count, start),
    ensures
        output is Mvt ==> archives.len() == 1 && archives[0].path is None && archives[0].first == 0
            && archives[0].count == count && archives[0].sequence is None,
        output is Raster && paths is Each ==> {
            &&& archives.len() == paths->Each_0.len()
            &&& forall|i: int|
                0 <= i < archives.len() ==> {
                    let archive = #[trigger] archives[i];
                    &&& archive.path is Some && archive.path->0@ == paths->Each_0[i]
                    &&& archive.first == i && archive.count == 1
                    &&& archive.sequence is Some && archive.sequence->0 == start + i
                }
        },
        output is Raster && !(paths is Each) ==> archives.len() == 1 && archives[0].path is None
            && archives[0].first == 0 && archives[0].count == 1 && archives[0].sequence is Some
            && archives[0].sequence->0 == start,
{
    if output is Raster && paths is Each {
        assert forall|i: int| 0 <= i < archives.len() implies {
            let archive = #[trigger] archives[i];
            &&& archive.path is Some && archive.path->0@ == paths->Each_0[i]
            &&& archive.first == i && archive.count == 1
            &&& archive.sequence is Some && archive.sequence->0 == start + i
        } by {
            assert(is_archive(archives[i], Some(paths->Each_0[i]), i, 1, Some(start + i)));
        }
    }
}

/// A tile begins with its first layer and goes on with the others in their order; a
/// single layer is the tile, and nothing is lost or put between.
pub proof fn lemma_concatenated(first: Seq<u8>, others: Seq<Seq<u8>>)
    ensures
        concatenated(Seq::<Seq<u8>>::empty()).len() == 0,
        concatenated(seq![first] + others) == first + concatenated(others),
    decreases others.len(),
{
    let all = seq![first] + others;
    if others.len() == 0 {
        assert(all.drop_last() =~= Seq::empty());
        assert(concatenated(all.drop_last()).len() == 0);
        assert(concatenated(all) =~= first + concatenated(others));
    } else {
        assert(all.drop_last() =~= seq![first] + others.drop_last());
        assert(all.last() == others.last());
        lemma_concatenated(first, others.drop_last());
        assert(first + concatenated(others.drop_last()) + others.last() =~= first + concatenated(
            others,
        ));
    }
}

} // verus!
