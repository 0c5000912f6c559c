//! What is said of input that cannot be converted.

use vstd::prelude::*;

use vstd::string::StringExecFns;

use crate::grib::{GribError, GridDefinition, GridFault};
use crate::text::{
    chars_of, decimal, decimal_text, lemma_decimal, string_of, value_of_digits,
};

verus! {

/// A number in two digits at least.
pub open spec fn padded(n: nat) -> Seq<char> {
    if n < 10 {
        "0"@ + decimal(n)
    } else {
        decimal(n)
    }
}

fn padded_text(n: u8) -> (text: String)
    ensures
        text@ == padded(n as nat),
{
    if n < 10 {
        let mut text = String::from_str("0");
        text.append(decimal_text(n as u64).as_str());
        text
    } else {
        decimal_text(n as u64)
    }
}

/// A hexadecimal digit.
pub open spec fn hex_digit(d: int) -> char {
    "0123456789abcdef"@[d]
}

/// A byte in hexadecimal.
pub open spec fn hex_byte(n: u8) -> Seq<char> {
    "0x"@ + seq![hex_digit(n as int / 16), hex_digit(n as int % 16)]
}

fn hex_text(n: u8) -> (text: String)
    ensures
        text@ == hex_byte(n),
{
    proof {
        reveal_strlit("0123456789abcdef");
    }
    let digits = chars_of("0123456789abcdef");
    let mut pair: Vec<char> = Vec::new();
    let high: usize = (n / 16) as usize;
    let low: usize = (n % 16) as usize;
    pair.push(digits[high]);
    pair.push(digits[low]);
    let mut text = String::from_str("0x");
    text.append(string_of(&pair).as_str());
    proof {
        assert(pair@ =~= seq![hex_digit(n as int / 16), hex_digit(n as int % 16)]);
    }
    text
}

impl GridFault {
    /// What is wrong with the grid. Where it takes floating-point numbers to say,
    /// they are given as text.
    pub open spec fn reason_text(self, numbers: Seq<char>) -> Seq<char> {
        match self {
            GridFault::ZeroIncrement => "grid increments must be positive"@,
            GridFault::FinerAfterValues =>
                "a finer grid appeared after values for this product had already been read"@,
            GridFault::ExtentPrecedesOrigin =>
                "its lower-left extent precedes the configured origin "@ + numbers,
            GridFault::UnequalWidths =>
                "increments map to unequal or fractional base-grid widths "@ + numbers,
            GridFault::NotPowerOfTwo(width) => "cell width "@ + decimal(width as nat)
                + " is not a power of two"@,
            GridFault::CornerPrecedesOrigin => "its corner "@ + numbers
                + " precedes the base grid origin"@,
            GridFault::LongitudeCountZero => "the longitude point count is zero"@,
            GridFault::LongitudeOverflow => "the longitude extent overflows"@,
            GridFault::LatitudeCountZero => "the latitude point count is zero"@,
            GridFault::LatitudeOverflow => "the latitude extent overflows"@,
            GridFault::LatitudePrecedesOrigin =>
                "the latitude extent precedes the configured origin"@,
            GridFault::ScanningMode(mode) => "scanning mode "@ + decimal(mode as nat)
                + " is not supported"@,
            GridFault::ExceedsCoordinates { x_first, y_first, x_last, y_last } =>
                "its base-grid extent ("@ + decimal(x_first as nat) + ", "@ + decimal(
                y_first as nat,
            ) + ")..("@ + decimal(x_last as nat) + ", "@ + decimal(y_last as nat)
                + ") exceeds the u16 coordinate range"@,
        }
    }

    pub fn reason(&self, numbers: &str) -> (text: String)
        ensures
            text@ == self.reason_text(numbers@),
    {
        match self {
            GridFault::ZeroIncrement => String::from_str("grid increments must be positive"),
            GridFault::FinerAfterValues => String::from_str(
                "a finer grid appeared after values for this product had already been read",
            ),
            GridFault::ExtentPrecedesOrigin => {
                let mut text = String::from_str(
                    "its lower-left extent precedes the configured origin ",
                );
                text.append(numbers);
                text
            },
            GridFault::UnequalWidths => {
                let mut text = String::from_str(
                    "increments map to unequal or fractional base-grid widths ",
                );
                text.append(numbers);
                text
            },
            GridFault::NotPowerOfTwo(width) => {
                let mut text = String::from_str("cell width ");
                text.append(decimal_text(*width as u64).as_str());
                text.append(" is not a power of two");
                text
            },
            GridFault::CornerPrecedesOrigin => {
                let mut text = String::from_str("its corner ");
                text.append(numbers);
                text.append(" precedes the base grid origin");
                text
            },
            GridFault::LongitudeCountZero => String::from_str("the longitude point count is zero"),
            GridFault::LongitudeOverflow => String::from_str("the longitude extent overflows"),
            GridFault::LatitudeCountZero => String::from_str("the latitude point count is zero"),
            GridFault::LatitudeOverflow => String::from_str("the latitude extent overflows"),
            GridFault::LatitudePrecedesOrigin => String::from_str(
                "the latitude extent precedes the configured origin",
            ),
            GridFault::ScanningMode(mode) => {
                let mut text = String::from_str("scanning mode ");
                text.append(decimal_text(*mode as u64).as_str());
                text.append(" is not supported");
                text
            },
            GridFault::ExceedsCoordinates { x_first, y_first, x_last, y_last } => {
                let mut text = String::from_str("its base-grid extent (");
                text.append(decimal_text(*x_first as u64).as_str());
                text.append(", ");
                text.append(decimal_text(*y_first as u64).as_str());
                text.append(")..(");
                text.append(decimal_text(*x_last as u64).as_str());
                text.append(", ");
                text.append(decimal_text(*y_last as u64).as_str());
                text.append(") exceeds the u16 coordinate range");
                text
            },
        }
    }
}

/// What is said of a grid that cannot be used.
pub open spec fn unsupported_grid_text(
    path: Seq<char>,
    grid: GridDefinition,
    reason: Seq<char>,
) -> Seq<char> {
    "unsupported grid for "@ + path + " (d_i="@ + decimal(grid.d_i as nat) + ", d_j="@ + decimal(
        grid.d_j as nat,
    ) + " microdegrees): "@ + reason
}

pub fn unsupported_grid(path: &str, grid: &GridDefinition, reason: &str) -> (text: String)
    ensures
        text@ == unsupported_grid_text(path@, *grid, reason@),
{
    let mut text = String::from_str("unsupported grid for ");
    text.append(path);
    text.append(" (d_i=");
    text.append(decimal_text(grid.d_i as u64).as_str());
    text.append(", d_j=");
    text.append(decimal_text(grid.d_j as u64).as_str());
    text.append(" microdegrees): ");
    text.append(reason);
    text
}

/// The points of a grid, across and down.
pub open spec fn size_text(grid: GridDefinition) -> Seq<char> {
    decimal(grid.n_i as nat) + "x"@ + decimal(grid.n_j as nat) + " grid"@
}

fn append_size(text: String, grid: &GridDefinition) -> (longer: String)
    ensures
        longer@ == text@ + size_text(*grid),
{
    let mut longer = text;
    let ghost start = longer@;
    longer.append(decimal_text(grid.n_i as u64).as_str());
    longer.append("x");
    longer.append(decimal_text(grid.n_j as u64).as_str());
    longer.append(" grid");
    assert(longer@ =~= start + size_text(*grid));
    longer
}

impl GribError {
    /// What is said of a message of a product that cannot be read.
    pub open spec fn message_text(
        self,
        path: Seq<char>,
        grid: GridDefinition,
        numbers: Seq<char>,
    ) -> Seq<char> {
        match self {
            GribError::Grid(fault) => unsupported_grid_text(path, grid, fault.reason_text(numbers)),
            GribError::NoTimeRange => "a statistical product carries no time range"@,
            GribError::PeriodEnd(end) => "the statistical period ends at "@ + decimal(
                end.year as nat,
            ) + "-"@ + padded(end.month as nat) + "-"@ + padded(end.day as nat) + " "@ + padded(
                end.hour as nat,
            ) + ":"@ + padded(end.minute as nat) + ":"@ + padded(end.second as nat)
                + ", which is not a valid time"@,
            GribError::TimeUnit(unit) => "time range unit "@ + decimal(unit as nat)
                + " is not supported"@,
            GribError::GridTemplate(number) => "grid definition template 3."@ + decimal(
                number as nat,
            ) + " is not supported"@,
            GribError::ResolutionFlags(flags) => "grid resolution/component flags "@ + hex_byte(
                flags,
            ) + " are not supported"@,
            GribError::ScanningMode(mode) => "grid scanning mode "@ + decimal(mode as nat)
                + " is not supported"@,
            GribError::BitmapTooShort => "bitmap for "@ + path + " has fewer entries than its "@
                + size_text(grid),
            GribError::FewerValuesThanBitmap => "data for "@ + path
                + " has fewer values than its bitmap"@,
            GribError::FewerValuesThanGrid => "data for "@ + path + " has fewer values than its "@
                + size_text(grid),
        }
    }

    pub fn message(&self, path: &str, grid: &GridDefinition, numbers: &str) -> (text: String)
        ensures
            text@ == self.message_text(path@, *grid, numbers@),
    {
        match self {
            GribError::Grid(fault) => unsupported_grid(path, grid, fault.reason(numbers).as_str()),
            GribError::NoTimeRange => String::from_str(
                "a statistical product carries no time range",
            ),
            GribError::PeriodEnd(end) => {
                let mut text = String::from_str("the statistical period ends at ");
                text.append(decimal_text(end.year as u64).as_str());
                text.append("-");
                text.append(padded_text(end.month).as_str());
                text.append("-");
                text.append(padded_text(end.day).as_str());
                text.append(" ");
                text.append(padded_text(end.hour).as_str());
                text.append(":");
                text.append(padded_text(end.minute).as_str());
                text.append(":");
                text.append(padded_text(end.second).as_str());
                text.append(", which is not a valid time");
                text
            },
            GribError::TimeUnit(unit) => {
                let mut text = String::from_str("time range unit ");
                text.append(decimal_text(*unit as u64).as_str());
                text.append(" is not supported");
                text
            },
            GribError::GridTemplate(number) => {
                let mut text = String::from_str("grid definition template 3.");
                text.append(decimal_text(*number as u64).as_str());
                text.append(" is not supported");
                text
            },
            GribError::ResolutionFlags(flags) => {
                let mut text = String::from_str("grid resolution/component flags ");
                text.append(hex_text(*flags).as_str());
                text.append(" are not supported");
                text
            },
            GribError::ScanningMode(mode) => {
                let mut text = String::from_str("grid scanning mode ");
                text.append(decimal_text(*mode as u64).as_str());
                text.append(" is not supported");
                text
            },
            GribError::BitmapTooShort => {
                let mut text = String::from_str("bitmap for ");
                text.append(path);
                text.append(" has fewer entries than its ");
                append_size(text, grid)
            },
            GribError::FewerValuesThanBitmap => {
                let mut text = String::from_str("data for ");
                text.append(path);
                text.append(" has fewer values than its bitmap");
                text
            },
            GribError::FewerValuesThanGrid => {
                let mut text = String::from_str("data for ");
                text.append(path);
                text.append(" has fewer values than its ");
                append_size(text, grid)
            },
        }
    }
}

/// Numbers in messages: two digits at least for a part of a date, and two hexadecimal
/// digits for a byte, the higher first.
pub proof fn lemma_numbers_in_messages(n: nat, byte: u8)
    ensures
        n < 100 ==> padded(n).len() == 2 && value_of_digits(padded(n)) == n,
        n >= 100 ==> padded(n) == decimal(n),
        hex_byte(byte).len() == 4 && hex_byte(byte)[0] == '0' && hex_byte(byte)[1] == 'x',
        hex_byte(byte)[2] == hex_digit(byte as int / 16),
        hex_byte(byte)[3] == hex_digit(byte as int % 16),
        n < 10 ==> hex_digit(n as int) as int == '0' as int + n,
        10 <= n < 16 ==> hex_digit(n as int) as int == 'a' as int + n - 10,
{
    reveal_strlit("0123456789abcdef");
    reveal_strlit("0x");
    reveal_strlit("0");
    lemma_decimal(n);
    let digits = padded(n);
    if n < 10 {
        assert(decimal(n) =~= seq![decimal(n)[0]]);
        assert(digits.drop_last() =~= "0"@);
        assert("0"@.drop_last() =~= Seq::empty());
        assert(value_of_digits("0"@.drop_last()) == 0);
        assert(value_of_digits("0"@) == 0);
        assert(decimal(n).drop_last() =~= Seq::empty());
        assert(value_of_digits(decimal(n).drop_last()) == 0);
    } else if n < 100 {
        assert(decimal(n / 10).len() == 1);
    }
}

/// Which numbers stand where in what is said of a grid: its steps along the rows before
/// those along the columns, its points across before those down, and the first corner of
/// its extent before the last, each with its column before its row.
pub proof fn lemma_grid_in_messages(
    path: Seq<char>,
    grid: GridDefinition,
    reason: Seq<char>,
    numbers: Seq<char>,
    corner: (int, int),
    opposite: (int, int),
    fault: GridFault,
)
    ensures
        unsupported_grid_text(path, grid, reason) == "unsupported grid for "@ + path + " (d_i="@
            + decimal(grid.d_i as nat) + ", d_j="@ + decimal(grid.d_j as nat)
            + " microdegrees): "@ + reason,
        size_text(grid) == decimal(grid.n_i as nat) + "x"@ + decimal(grid.n_j as nat) + " grid"@,
        fault is ExceedsCoordinates && corner == (fault->x_first as int, fault->y_first as int)
            && opposite == (fault->x_last as int, fault->y_last as int) ==> fault.reason_text(
            numbers,
        ) == "its base-grid extent ("@ + decimal(corner.0 as nat) + ", "@ + decimal(
            corner.1 as nat,
        ) + ")..("@ + decimal(opposite.0 as nat) + ", "@ + decimal(opposite.1 as nat)
            + ") exceeds the u16 coordinate range"@,
        fault matches GridFault::NotPowerOfTwo(width) ==> fault.reason_text(numbers)
            == "cell width "@ + decimal(width as nat) + " is not a power of two"@,
        fault matches GridFault::ScanningMode(mode) ==> fault.reason_text(numbers)
            == "scanning mode "@ + decimal(mode as nat) + " is not supported"@,
        fault is ExtentPrecedesOrigin || fault is UnequalWidths ==> fault.reason_text(
            numbers,
        ).len() > numbers.len() && fault.reason_text(numbers).skip(
            fault.reason_text(numbers).len() - numbers.len(),
        ) == numbers,
{
    reveal_strlit("its lower-left extent precedes the configured origin ");
    reveal_strlit("increments map to unequal or fractional base-grid widths ");
    if fault is ExtentPrecedesOrigin || fault is UnequalWidths {
        let text = fault.reason_text(numbers);
        assert(text.skip(text.len() - numbers.len()) =~= numbers);
    }
}

/// Which numbers stand where in what is said of a message.
pub proof fn lemma_numbers_said(
    error: GribError,
    path: Seq<char>,
    grid: GridDefinition,
    numbers: Seq<char>,
)
    ensures
        match error {
            GribError::Grid(fault) => error.message_text(path, grid, numbers)
                == unsupported_grid_text(path, grid, fault.reason_text(numbers)),
            GribError::PeriodEnd(end) => error.message_text(path, grid, numbers)
                == "the statistical period ends at "@ + decimal(end.year as nat) + "-"@ + padded(
                end.month as nat,
            ) + "-"@ + padded(end.day as nat) + " "@ + padded(end.hour as nat) + ":"@ + padded(
                end.minute as nat,
            ) + ":"@ + padded(end.second as nat) + ", which is not a valid time"@,
            GribError::TimeUnit(unit) => error.message_text(path, grid, numbers)
                == "time range unit "@ + decimal(unit as nat) + " is not supported"@,
            GribError::GridTemplate(number) => error.message_text(path, grid, numbers)
                == "grid definition template 3."@ + decimal(number as nat)
                + " is not supported"@,
            GribError::ResolutionFlags(flags) => error.message_text(path, grid, numbers)
                == "grid resolution/component flags "@ + hex_byte(flags)
                + " are not supported"@,
            GribError::ScanningMode(mode) => error.message_text(path, grid, numbers)
                == "grid scanning mode "@ + decimal(mode as nat) + " is not supported"@,
            GribError::BitmapTooShort => error.message_text(path, grid, numbers) == "bitmap for "@
                + path + " has fewer entries than its "@ + size_text(grid),
            GribError::FewerValuesThanBitmap => error.message_text(path, grid, numbers)
                == "data for "@ + path + " has fewer values than its bitmap"@,
            GribError::FewerValuesThanGrid => error.message_text(path, grid, numbers)
                == "data for "@ + path + " has fewer values than its "@ + size_text(grid),
            GribError::NoTimeRange => error.message_text(path, grid, numbers)
                == "a statistical product carries no time range"@,
        },
{
}

} // verus!
