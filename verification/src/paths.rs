//! Where the files of a conversion go, and how they are found from one another.

use vstd::prelude::*;

use vstd::string::StringExecFns;

use crate::calendar::{compact_time, compact_time_text, in_calendar};
use crate::model::PreparedProduct;
use crate::options::numbered;
use crate::text::{
    contains, decimal, decimal_text, first_place, join, joined, lemma_decimal_injective,
    lemma_replaced, occurs, occurs_at, replace, replaced, split_parts, texts,
};

verus! {

/// Why no output paths can be made.
#[derive(Debug)]
pub enum OutputPathError {
    /// Several forecast times need a pattern, and the path is no text.
    NotText,
    /// Several forecast times need a placeholder.
    NoPlaceholder { count: usize },
    /// The sequence numbers run out.
    SequenceOverflow,
    /// Two forecast times get the same path.
    Duplicate,
}

/// The pattern holds a placeholder.
pub open spec fn has_placeholder(pattern: Seq<char>) -> bool {
    ||| occurs(pattern, "{seq}"@)
    ||| occurs(pattern, "{valid_time}"@)
    ||| occurs(pattern, "{reference_time}"@)
}

/// The path of one forecast time.
pub open spec fn expanded(
    pattern: Seq<char>,
    sequence: nat,
    valid_time: i64,
    reference_time: i64,
) -> Seq<char> {
    replaced(
        replaced(
            replaced(pattern, "{seq}"@, decimal(sequence)),
            "{valid_time}"@,
            compact_time_text(valid_time as int),
        ),
        "{reference_time}"@,
        compact_time_text(reference_time as int),
    )
}

/// The paths of all the forecast times.
pub open spec fn expanded_all(
    pattern: Seq<char>,
    products: Seq<PreparedProduct>,
    start: nat,
) -> Seq<Seq<char>> {
    Seq::new(
        products.len(),
        |i: int|
            expanded(
                pattern,
                (start + i) as nat,
                products[i].product_id.datetime,
                products[i].product_id.reference_datetime,
            ),
    )
}

/// The outcome of making the paths: those of the forecast times, nothing where
/// the path stays as it was given, or an error.
pub enum Paths {
    AsGiven,
    Each(Seq<Seq<char>>),
    NotText,
    NoPlaceholder,
    SequenceOverflow,
    Duplicate,
}

pub open spec fn output_paths(
    pattern: Option<Seq<char>>,
    products: Seq<PreparedProduct>,
    start: usize,
) -> Paths {
    match pattern {
        None => if products.len() == 1 {
            Paths::AsGiven
        } else {
            Paths::NotText
        },
        Some(pattern) => if products.len() == 1 && !has_placeholder(pattern) {
            Paths::Each(seq![pattern])
        } else if products.len() != 1 && !occurs(pattern, "{seq}"@) && !occurs(
            pattern,
            "{valid_time}"@,
        ) {
            Paths::NoPlaceholder
        } else if start + products.len() > usize::MAX {
            Paths::SequenceOverflow
        } else if !expanded_all(pattern, products, start as nat).no_duplicates() {
            Paths::Duplicate
        } else {
            Paths::Each(expanded_all(pattern, products, start as nat))
        },
    }
}

/// The times of the products are times that can be written.
pub open spec fn all_dated(products: Seq<PreparedProduct>) -> bool {
    forall|i: int|
        0 <= i < products.len() ==> in_calendar(
            (#[trigger] products[i]).product_id.datetime as int,
        ) && in_calendar(products[i].product_id.reference_datetime as int)
}

fn are_distinct(paths: &Vec<String>) -> (r: bool)
    ensures
        r == texts(paths@).no_duplicates(),
{
    let mut i: usize = 0;
    while i < paths.len()
        invariant
            i <= paths@.len(),
            forall|a: int, b: int|
                #![trigger paths@[a], paths@[b]]
                0 <= a < b < i ==> paths@[a]@ != paths@[b]@,
        decreases paths@.len() - i,
    {
        let mut k: usize = 0;
        while k < i
            invariant
                k <= i < paths@.len(),
                forall|a: int| 0 <= a < k ==> (#[trigger] paths@[a])@ != paths@[i as int]@,
            decreases i - k,
        {
            if paths[k] == paths[i] {
                proof {
                    let t = texts(paths@);
                    assert(t[k as int] == t[i as int]);
                }
                return false;
            }
            k = k + 1;
        }
        i = i + 1;
    }
    proof {
        let t = texts(paths@);
        assert forall|a: int, b: int| 0 <= a < t.len() && 0 <= b < t.len() && a != b implies t[a]
            != t[b] by {
            assert(t[a] == paths@[a]@ && t[b] == paths@[b]@);
            if a < b {
                assert(paths@[a]@ != paths@[b]@);
            } else {
                assert(paths@[b]@ != paths@[a]@);
            }
        }
    }
    true
}

/// Expands a raster output pattern into one archive path per forecast time.
/// Nothing comes back where the path is no text, and stays as it is.
pub fn raster_output_paths(
    pattern: Option<&str>,
    products: &Vec<PreparedProduct>,
    sequence_start: usize,
) -> (outcome: Result<Option<Vec<String>>, OutputPathError>)
    requires
        all_dated(products@),
    ensures
        match (
            outcome,
            output_paths(
                match pattern {
                    Some(text) => Some(text@),
                    None => None,
                },
                products@,
                sequence_start,
            ),
        ) {
            (Ok(None), Paths::AsGiven) => true,
            (Ok(Some(paths)), Paths::Each(expected)) => texts(paths@) == expected,
            (Err(OutputPathError::NotText), Paths::NotText) => true,
            (Err(OutputPathError::NoPlaceholder { count }), Paths::NoPlaceholder) => count
                == products@.len(),
            (Err(OutputPathError::SequenceOverflow), Paths::SequenceOverflow) => true,
            (Err(OutputPathError::Duplicate), Paths::Duplicate) => true,
            _ => false,
        },
{
    let count: usize = products.len();
    let text = match pattern {
        Some(text) => text,
        None => {
            if count == 1 {
                return Ok(None);
            }
            return Err(OutputPathError::NotText);
        },
    };
    let has_sequence = contains(text, "{seq}");
    let has_valid_time = contains(text, "{valid_time}");
    let has_reference_time = contains(text, "{reference_time}");
    if count == 1 && !(has_sequence || has_valid_time || has_reference_time) {
        let mut paths: Vec<String> = Vec::new();
        paths.push(String::from_str(text));
        assert(texts(paths@) =~= seq![text@]);
        return Ok(Some(paths));
    }
    if !(count == 1 || has_sequence || has_valid_time) {
        return Err(OutputPathError::NoPlaceholder { count });
    }
    if sequence_start > usize::MAX - count {
        return Err(OutputPathError::SequenceOverflow);
    }
    let mut paths: Vec<String> = Vec::new();
    let mut i: usize = 0;
    while i < count
        invariant
            i <= count,
            count == products@.len(),
            all_dated(products@),
            sequence_start + count <= usize::MAX,
            paths@.len() == i,
            forall|k: int|
                0 <= k < i ==> (#[trigger] paths@[k])@ == expanded_all(
                    text@,
                    products@,
                    sequence_start as nat,
                )[k],
        decreases count - i,
    {
        proof {
            reveal_strlit("{seq}");
            reveal_strlit("{valid_time}");
            reveal_strlit("{reference_time}");
        }
        let digits = decimal_text((sequence_start + i) as u64);
        let valid = compact_time(products[i].product_id.datetime);
        let reference = compact_time(products[i].product_id.reference_datetime);
        let numbered = replace(text, "{seq}", digits.as_str());
        let timed = replace(numbered.as_str(), "{valid_time}", valid.as_str());
        paths.push(replace(timed.as_str(), "{reference_time}", reference.as_str()));
        i = i + 1;
    }
    assert(texts(paths@) =~= expanded_all(text@, products@, sequence_start as nat));
    if !are_distinct(&paths) {
        return Err(OutputPathError::Duplicate);
    }
    Ok(Some(paths))
}

impl OutputPathError {
    pub open spec fn text(self) -> Seq<char> {
        match self {
            OutputPathError::NotText => "a raster output pattern must be valid UTF-8"@,
            OutputPathError::NoPlaceholder { count } => "--raster selected "@ + decimal(
                count as nat,
            )
                + " forecast times, so the output path must contain the {seq} or {valid_time} placeholder (for example, wind_{valid_time}.pmtiles)"@,
            OutputPathError::SequenceOverflow => "the raster output sequence number overflowed"@,
            OutputPathError::Duplicate =>
                "the raster output pattern expands to duplicate paths; add {seq} or {valid_time}"@,
        }
    }

    pub fn message(&self) -> (message: String)
        ensures
            message@ == self.text(),
    {
        match self {
            OutputPathError::NotText => String::from_str(
                "a raster output pattern must be valid UTF-8",
            ),
            OutputPathError::NoPlaceholder { count } => {
                let mut message = String::from_str("--raster selected ");
                message.append(decimal_text(*count as u64).as_str());
                message.append(
                    " forecast times, so the output path must contain the {seq} or {valid_time} placeholder (for example, wind_{valid_time}.pmtiles)",
                );
                message
            },
            OutputPathError::SequenceOverflow => String::from_str(
                "the raster output sequence number overflowed",
            ),
            OutputPathError::Duplicate => String::from_str(
                "the raster output pattern expands to duplicate paths; add {seq} or {valid_time}",
            ),
        }
    }
}

/// A step of a path.
#[derive(Debug)]
pub enum Step {
    /// To the root of the file system.
    Root,
    /// Nowhere.
    Current,
    /// To the directory above.
    Parent,
    /// Into what has that name.
    Name(String),
}

/// Where a path leads, as the names below the root. Above the root is the root.
pub open spec fn destination(steps: Seq<Step>) -> Seq<Seq<char>>
    decreases steps.len(),
{
    if steps.len() == 0 {
        Seq::empty()
    } else {
        let before = destination(steps.drop_last());
        match steps.last() {
            Step::Root => Seq::empty(),
            Step::Current => before,
            Step::Parent => if before.len() == 0 {
                before
            } else {
                before.drop_last()
            },
            Step::Name(name) => before.push(name@),
        }
    }
}

/// Follows an absolute path by its names alone.
pub fn absolute_lexical(steps: &Vec<Step>) -> (names: Vec<String>)
    ensures
        texts(names@) == destination(steps@),
{
    let mut names: Vec<String> = Vec::new();
    let mut i: usize = 0;
    proof {
        assert(steps@.take(0) =~= Seq::empty());
        assert(texts(names@) =~= Seq::empty());
    }
    while i < steps.len()
        invariant
            i <= steps@.len(),
            texts(names@) == destination(steps@.take(i as int)),
        decreases steps@.len() - i,
    {
        let ghost before = names@;
        proof {
            assert(steps@.take(i + 1).drop_last() =~= steps@.take(i as int));
            assert(steps@.take(i + 1).last() == steps@[i as int]);
        }
        match &steps[i] {
            Step::Root => {
                names = Vec::new();
                assert(texts(names@) =~= Seq::empty());
            },
            Step::Current => {},
            Step::Parent => {
                let top = names.pop();
                proof {
                    if before.len() > 0 {
                        assert(texts(names@) =~= texts(before).drop_last());
                    } else {
                        assert(texts(names@) =~= texts(before));
                    }
                }
            },
            Step::Name(name) => {
                names.push(name.clone());
                assert(texts(names@) =~= texts(before).push(name@));
            },
        }
        i = i + 1;
    }
    assert(steps@.take(steps@.len() as int) =~= steps@);
    names
}

/// How many names two paths share from the root.
pub open spec fn shared(a: Seq<Seq<char>>, b: Seq<Seq<char>>) -> int
    decreases a.len(),
{
    if a.len() == 0 || b.len() == 0 || a[0] != b[0] {
        0
    } else {
        1 + shared(a.skip(1), b.skip(1))
    }
}

/// The steps back out of a directory.
pub open spec fn climb(up: nat) -> Seq<char>
    decreases up,
{
    if up == 0 {
        Seq::empty()
    } else {
        "../"@ + climb((up - 1) as nat)
    }
}

/// Where a file sits as seen from a directory: as many steps back as lead out of
/// what the two do not share, and the names from there.
pub open spec fn url_of(directory: Seq<Seq<char>>, output: Seq<Seq<char>>) -> Seq<char> {
    let n = shared(directory, output);
    climb((directory.len() - n) as nat) + joined(output.skip(n), "/"@)
}

proof fn lemma_shared(a: Seq<Seq<char>>, b: Seq<Seq<char>>, n: int)
    requires
        0 <= n <= a.len(),
        n <= b.len(),
        forall|k: int| 0 <= k < n ==> #[trigger] a[k] == b[k],
        n == a.len() || n == b.len() || a[n] != b[n],
    ensures
        shared(a, b) == n,
    decreases a.len(),
{
    if n > 0 {
        assert(a[0] == b[0]);
        let x = a.skip(1);
        let y = b.skip(1);
        assert forall|k: int| 0 <= k < n - 1 implies #[trigger] x[k] == y[k] by {
            assert(a[k + 1] == b[k + 1]);
        }
        lemma_shared(x, y, n - 1);
    }
}

proof fn lemma_shared_bound(a: Seq<Seq<char>>, b: Seq<Seq<char>>)
    ensures
        0 <= shared(a, b) <= a.len(),
        shared(a, b) <= b.len(),
        a.take(shared(a, b)) == b.take(shared(a, b)),
    decreases a.len(),
{
    if a.len() > 0 && b.len() > 0 && a[0] == b[0] {
        lemma_shared_bound(a.skip(1), b.skip(1));
        let n = shared(a.skip(1), b.skip(1));
        assert(a.take(n + 1) =~= seq![a[0]] + a.skip(1).take(n));
        assert(b.take(n + 1) =~= seq![b[0]] + b.skip(1).take(n));
    } else {
        assert(a.take(0) =~= b.take(0));
    }
}

/// Where an archive sits as seen from the manifest.
///
/// Relative, so that the set can be moved or served from anywhere as a unit. An
/// archive beside or above the manifest needs the `..` steps spelled out, or the
/// client resolves the name against the wrong directory.
pub fn relative_url(directory: &Vec<Step>, output: &Vec<Step>) -> (url: String)
    ensures
        url@ == url_of(destination(directory@), destination(output@)),
{
    let from = absolute_lexical(directory);
    let to = absolute_lexical(output);
    let ghost f = texts(from@);
    let ghost t = texts(to@);
    let mut n: usize = 0;
    while n < from.len() && n < to.len() && from[n] == to[n]
        invariant
            n <= from@.len(),
            n <= to@.len(),
            f == texts(from@),
            t == texts(to@),
            forall|k: int| 0 <= k < n ==> #[trigger] f[k] == t[k],
        decreases from@.len() - n,
    {
        proof {
            assert(f[n as int] == from@[n as int]@ && t[n as int] == to@[n as int]@);
        }
        n = n + 1;
    }
    proof {
        if n < from@.len() && n < to@.len() {
            assert(f[n as int] == from@[n as int]@ && t[n as int] == to@[n as int]@);
        }
        lemma_shared(f, t, n as int);
    }
    let mut url = String::from_str("");
    proof {
        reveal_strlit("");
        assert(""@ =~= Seq::empty());
    }
    let total: usize = from.len() - n;
    let mut up: usize = 0;
    while up < total
        invariant
            up <= total,
            url@ == climb(up as nat),
        decreases total - up,
    {
        url.append("../");
        proof {
            lemma_climb(up as nat);
        }
        up = up + 1;
    }
    let mut rest: Vec<String> = Vec::new();
    let mut i: usize = n;
    while i < to.len()
        invariant
            n <= i <= to@.len(),
            rest@.len() == i - n,
            forall|k: int| 0 <= k < i - n ==> (#[trigger] rest@[k])@ == to@[n + k]@,
        decreases to@.len() - i,
    {
        rest.push(to[i].clone());
        i = i + 1;
    }
    assert(texts(rest@) =~= t.skip(n as int));
    url.append(join(&rest, "/").as_str());
    url
}

/// A step back more at the end is one more at the front.
proof fn lemma_climb(up: nat)
    ensures
        climb(up) + "../"@ == climb(up + 1),
    decreases up,
{
    if up > 0 {
        lemma_climb((up - 1) as nat);
        assert(("../"@ + climb((up - 1) as nat)) + "../"@ =~= "../"@ + (climb((up - 1) as nat)
            + "../"@));
    } else {
        assert(climb(0) + "../"@ =~= "../"@ + climb(0));
    }
}

/// Where the parts of a URL lead from a directory: two dots lead back, and an
/// empty part nowhere.
pub open spec fn followed(directory: Seq<Seq<char>>, parts: Seq<Seq<char>>) -> Seq<Seq<char>>
    decreases parts.len(),
{
    if parts.len() == 0 {
        directory
    } else {
        let before = followed(directory, parts.drop_last());
        if parts.last().len() == 0 {
            before
        } else if parts.last() == ".."@ {
            if before.len() == 0 {
                before
            } else {
                before.drop_last()
            }
        } else {
            before.push(parts.last())
        }
    }
}

/// Where a URL leads from a directory.
pub open spec fn resolved(directory: Seq<Seq<char>>, url: Seq<char>) -> Seq<Seq<char>> {
    followed(directory, split_parts(url, '/'))
}

/// The text can be the name of a file.
pub open spec fn is_name(name: Seq<char>) -> bool {
    &&& name.len() > 0
    &&& name != ".."@
    &&& !name.contains('/')
}

/// A client that resolves a URL against the directory of the manifest finds the
/// archive, wherever it sits.
pub proof fn lemma_url_resolves(directory: Seq<Seq<char>>, output: Seq<Seq<char>>)
    requires
        forall|i: int| 0 <= i < output.len() ==> is_name(#[trigger] output[i]),
    ensures
        resolved(directory, url_of(directory, output)) == output,
{
    lemma_shared_bound(directory, output);
    let n = shared(directory, output);
    let up = (directory.len() - n) as nat;
    let rest = output.skip(n);
    assert forall|i: int| 0 <= i < rest.len() implies is_name(#[trigger] rest[i]) by {
        assert(rest[i] == output[n + i]);
    }
    lemma_climb_parts(up, joined(rest, "/"@));
    let back = Seq::new(up, |i: int| ".."@);
    let tail = split_parts(joined(rest, "/"@), '/');
    lemma_followed_append(directory, back, tail);
    lemma_followed_back(directory, up);
    let common = directory.take(n);
    assert(directory.take(directory.len() - up) =~= common);
    if rest.len() == 0 {
        assert(joined(rest, "/"@) =~= Seq::empty());
        assert(tail =~= seq![Seq::empty()]);
        assert(tail.drop_last() =~= Seq::empty());
        assert(followed(common, tail.drop_last()) == common);
        assert(followed(common, tail) == common);
        assert(common =~= output);
    } else {
        lemma_split_joined(rest);
        lemma_followed_names(common, rest);
        assert(common + rest =~= output);
    }
}

proof fn lemma_followed_append(d: Seq<Seq<char>>, a: Seq<Seq<char>>, b: Seq<Seq<char>>)
    ensures
        followed(d, a + b) == followed(followed(d, a), b),
    decreases b.len(),
{
    if b.len() > 0 {
        lemma_followed_append(d, a, b.drop_last());
        assert((a + b).drop_last() =~= a + b.drop_last());
    } else {
        assert(a + b =~= a);
    }
}

proof fn lemma_followed_back(d: Seq<Seq<char>>, up: nat)
    requires
        up <= d.len(),
    ensures
        followed(d, Seq::new(up, |i: int| ".."@)) == d.take(d.len() - up),
    decreases up,
{
    let back = Seq::new(up, |i: int| ".."@);
    if up > 0 {
        reveal_strlit("..");
        lemma_followed_back(d, (up - 1) as nat);
        assert(back.drop_last() =~= Seq::new((up - 1) as nat, |i: int| ".."@));
        assert(back.last() == ".."@);
        assert(d.take(d.len() - up + 1).drop_last() =~= d.take(d.len() - up));
    } else {
        assert(back =~= Seq::empty());
        assert(d.take(d.len() as int) =~= d);
    }
}

proof fn lemma_followed_names(d: Seq<Seq<char>>, names: Seq<Seq<char>>)
    requires
        forall|i: int| 0 <= i < names.len() ==> is_name(#[trigger] names[i]),
    ensures
        followed(d, names) == d + names,
    decreases names.len(),
{
    if names.len() > 0 {
        let before = names.drop_last();
        assert forall|i: int| 0 <= i < before.len() implies is_name(#[trigger] before[i]) by {
            assert(before[i] == names[i]);
        }
        lemma_followed_names(d, before);
        assert(is_name(names[names.len() - 1]));
        assert((d + before).push(names.last()) =~= d + names);
    } else {
        assert(d + names =~= d);
    }
}

/// Splitting takes the first part off.
proof fn lemma_split_front(part: Seq<char>, rest: Seq<char>)
    requires
        !part.contains('/'),
    ensures
        split_parts(part + seq!['/'] + rest, '/') == seq![part] + split_parts(rest, '/'),
{
    let text = part + seq!['/'] + rest;
    lemma_place_of(part, seq!['/'] + rest);
    assert(part + (seq!['/'] + rest) =~= text);
    assert(first_place(seq!['/'] + rest, '/') == 0);
    assert(text.take(part.len() as int) =~= part);
    assert(text.skip((part.len() + 1) as int) =~= rest);
}

proof fn lemma_place_of(part: Seq<char>, rest: Seq<char>)
    requires
        !part.contains('/'),
    ensures
        first_place(part + rest, '/') == part.len() + first_place(rest, '/'),
    decreases part.len(),
{
    if part.len() > 0 {
        let tail = part.skip(1);
        assert(!tail.contains('/')) by {
            if tail.contains('/') {
                let k = choose|k: int| 0 <= k < tail.len() && tail[k] == '/';
                assert(part[k + 1] == '/');
            }
        }
        lemma_place_of(tail, rest);
        assert((part + rest).skip(1) =~= tail + rest);
        assert((part + rest)[0] == part[0]);
        assert(part.contains(part[0]));
    } else {
        assert(part + rest =~= rest);
    }
}

proof fn lemma_split_single(part: Seq<char>)
    requires
        !part.contains('/'),
    ensures
        split_parts(part, '/') == seq![part],
{
    lemma_place_of(part, Seq::empty());
    assert(part + Seq::<char>::empty() =~= part);
}

proof fn lemma_climb_parts(up: nat, rest: Seq<char>)
    ensures
        split_parts(climb(up) + rest, '/') == Seq::new(up, |i: int| ".."@) + split_parts(rest, '/'),
    decreases up,
{
    let back = Seq::new(up, |i: int| ".."@);
    if up > 0 {
        reveal_strlit("../");
        reveal_strlit("..");
        lemma_climb_parts((up - 1) as nat, rest);
        let inner = climb((up - 1) as nat) + rest;
        assert("../"@ =~= ".."@ + seq!['/']);
        assert(!".."@.contains('/'));
        lemma_split_front(".."@, inner);
        assert(climb(up) + rest =~= ".."@ + seq!['/'] + inner);
        assert(seq![".."@] + (Seq::new((up - 1) as nat, |i: int| ".."@) + split_parts(rest, '/'))
            =~= back + split_parts(rest, '/'));
    } else {
        assert(climb(up) + rest =~= rest);
        assert(back + split_parts(rest, '/') =~= split_parts(rest, '/'));
    }
}

proof fn lemma_joined_front(parts: Seq<Seq<char>>)
    requires
        parts.len() >= 2,
    ensures
        joined(parts, "/"@) == parts[0] + "/"@ + joined(parts.skip(1), "/"@),
    decreases parts.len(),
{
    let tail = parts.skip(1);
    if parts.len() == 2 {
        assert(parts.drop_last() =~= seq![parts[0]]);
        assert(tail =~= seq![parts[1]]);
        assert(joined(seq![parts[0]], "/"@) == parts[0]);
        assert(joined(seq![parts[1]], "/"@) == parts[1]);
    } else {
        let front = parts.drop_last();
        lemma_joined_front(front);
        assert(front.skip(1) =~= tail.drop_last());
        assert(front[0] == parts[0]);
        assert(tail.last() == parts.last());
        assert((parts[0] + "/"@ + joined(tail.drop_last(), "/"@)) + "/"@ + parts.last()
            =~= parts[0] + "/"@ + (joined(tail.drop_last(), "/"@) + "/"@ + parts.last()));
    }
}

proof fn lemma_split_joined(parts: Seq<Seq<char>>)
    requires
        parts.len() > 0,
        forall|i: int| 0 <= i < parts.len() ==> is_name(#[trigger] parts[i]),
    ensures
        split_parts(joined(parts, "/"@), '/') == parts,
    decreases parts.len(),
{
    assert(is_name(parts[0]));
    if parts.len() == 1 {
        lemma_split_single(parts[0]);
        assert(parts =~= seq![parts[0]]);
    } else {
        let tail = parts.skip(1);
        assert forall|i: int| 0 <= i < tail.len() implies is_name(#[trigger] tail[i]) by {
            assert(tail[i] == parts[i + 1]);
        }
        lemma_split_joined(tail);
        lemma_joined_front(parts);
        reveal_strlit("/");
        assert("/"@ =~= seq!['/']);
        lemma_split_front(parts[0], joined(tail, "/"@));
        assert(seq![parts[0]] + tail =~= parts);
    }
}

/// What a run writes, or would write.
#[derive(Clone, Copy, Debug, PartialEq, Eq, Structural)]
pub enum Target {
    Output(usize),
    Manifest,
}

/// Why a run may not write what it is asked to.
#[derive(Clone, Copy, Debug, PartialEq, Eq, Structural)]
pub enum PathClash {
    OverwritesInput(Target),
    WrittenTwice(Target),
}

/// The contents of paths.
pub open spec fn path_views(paths: Seq<Vec<u8>>) -> Seq<Seq<u8>> {
    paths.map_values(|p: Vec<u8>| p@)
}

/// Everything that a run writes, the manifest last.
pub open spec fn written(outputs: Seq<Vec<u8>>, manifest: Option<Vec<u8>>) -> Seq<Seq<u8>> {
    match manifest {
        Some(path) => path_views(outputs).push(path@),
        None => path_views(outputs),
    }
}

/// What is wrong with place `k` of what is written.
pub open spec fn clash_at(
    input: Seq<u8>,
    outputs: Seq<Vec<u8>>,
    manifest: Option<Vec<u8>>,
    k: int,
) -> Option<PathClash> {
    let all = written(outputs, manifest);
    let target = if k < outputs.len() {
        Target::Output(k as usize)
    } else {
        Target::Manifest
    };
    if all[k] == input {
        Some(PathClash::OverwritesInput(target))
    } else if all.take(k).contains(all[k]) {
        Some(PathClash::WrittenTwice(target))
    } else {
        None
    }
}

/// Place `k` is the first at which something is wrong.
pub open spec fn clashes_first(
    input: Seq<u8>,
    outputs: Seq<Vec<u8>>,
    manifest: Option<Vec<u8>>,
    clash: PathClash,
    k: int,
) -> bool {
    &&& 0 <= k < written(outputs, manifest).len()
    &&& clash_at(input, outputs, manifest, k) == Some(clash)
    &&& forall|j: int| 0 <= j < k ==> #[trigger] clash_at(input, outputs, manifest, j) is None
}

pub open spec fn clashes(
    input: Seq<u8>,
    outputs: Seq<Vec<u8>>,
    manifest: Option<Vec<u8>>,
    clash: PathClash,
) -> bool {
    exists|k: int| #[trigger] clashes_first(input, outputs, manifest, clash, k)
}

fn same_bytes(a: &Vec<u8>, b: &Vec<u8>) -> (r: bool)
    ensures
        r == (a@ == b@),
{
    if a.len() != b.len() {
        return false;
    }
    let mut i: usize = 0;
    while i < a.len()
        invariant
            i <= a@.len(),
            a@.len() == b@.len(),
            forall|k: int| 0 <= k < i ==> #[trigger] a@[k] == b@[k],
        decreases a@.len() - i,
    {
        if a[i] != b[i] {
            return false;
        }
        i = i + 1;
    }
    assert(a@ =~= b@);
    true
}

/// Whether the path is among the first outputs.
fn is_among(path: &Vec<u8>, outputs: &Vec<Vec<u8>>, count: usize) -> (r: bool)
    requires
        count <= outputs@.len(),
    ensures
        r == path_views(outputs@).take(count as int).contains(path@),
{
    let ghost first = path_views(outputs@).take(count as int);
    let mut i: usize = 0;
    while i < count
        invariant
            i <= count <= outputs@.len(),
            first == path_views(outputs@).take(count as int),
            forall|k: int| 0 <= k < i ==> #[trigger] first[k] != path@,
        decreases count - i,
    {
        assert(first[i as int] == outputs@[i as int]@);
        if same_bytes(path, &outputs[i]) {
            return true;
        }
        i = i + 1;
    }
    false
}

/// Checks that nothing this run writes lands on the input or on another output,
/// before the first byte is written. The paths are what they resolve to.
///
/// The manifest is written after the archives, so pointing it at one of them
/// would replace a perfectly good archive with JSON and still report success.
pub fn ensure_distinct_paths(
    input: &Vec<u8>,
    outputs: &Vec<Vec<u8>>,
    manifest: &Option<Vec<u8>>,
) -> (outcome: Result<(), PathClash>)
    ensures
        match outcome {
            Ok(_) => {
                &&& written(outputs@, *manifest).no_duplicates()
                &&& !written(outputs@, *manifest).contains(input@)
            },
            Err(clash) => clashes(input@, outputs@, *manifest, clash),
        },
{
    let ghost all = written(outputs@, *manifest);
    let mut i: usize = 0;
    while i < outputs.len()
        invariant
            i <= outputs@.len(),
            all == written(outputs@, *manifest),
            forall|j: int| 0 <= j < i ==> #[trigger] clash_at(input@, outputs@, *manifest, j) is None,
        decreases outputs@.len() - i,
    {
        proof {
            assert(all[i as int] == outputs@[i as int]@);
            assert(all.take(i as int) =~= path_views(outputs@).take(i as int));
        }
        if same_bytes(&outputs[i], input) {
            let clash = PathClash::OverwritesInput(Target::Output(i));
            assert(clashes_first(input@, outputs@, *manifest, clash, i as int));
            return Err(clash);
        }
        if is_among(&outputs[i], outputs, i) {
            let clash = PathClash::WrittenTwice(Target::Output(i));
            assert(clashes_first(input@, outputs@, *manifest, clash, i as int));
            return Err(clash);
        }
        i = i + 1;
    }
    if let Some(path) = manifest {
        let ghost n = outputs@.len() as int;
        proof {
            assert(all[n] == path@);
            assert(all.take(n) =~= path_views(outputs@).take(n));
        }
        if same_bytes(path, input) {
            let clash = PathClash::OverwritesInput(Target::Manifest);
            assert(clashes_first(input@, outputs@, *manifest, clash, n));
            return Err(clash);
        }
        if is_among(path, outputs, outputs.len()) {
            let clash = PathClash::WrittenTwice(Target::Manifest);
            assert(clashes_first(input@, outputs@, *manifest, clash, n));
            return Err(clash);
        }
        assert(clash_at(input@, outputs@, *manifest, n) is None);
    }
    proof {
        assert forall|j: int| 0 <= j < all.len() implies #[trigger] clash_at(
            input@,
            outputs@,
            *manifest,
            j,
        ) is None by {}
        lemma_no_clash(input@, outputs@, *manifest);
    }
    Ok(())
}

/// Where nothing is wrong at any place, all the paths differ, and from the input
/// too.
proof fn lemma_no_clash(input: Seq<u8>, outputs: Seq<Vec<u8>>, manifest: Option<Vec<u8>>)
    requires
        forall|j: int|
            0 <= j < written(outputs, manifest).len() ==> #[trigger] clash_at(
                input,
                outputs,
                manifest,
                j,
            ) is None,
    ensures
        written(outputs, manifest).no_duplicates(),
        !written(outputs, manifest).contains(input),
{
    let all = written(outputs, manifest);
    assert forall|a: int, b: int|
        0 <= a < all.len() && 0 <= b < all.len() && a != b implies all[a] != all[b] by {
        let (low, high) = if a < b {
            (a, b)
        } else {
            (b, a)
        };
        assert(clash_at(input, outputs, manifest, high) is None);
        assert(all.take(high)[low] == all[low]);
    }
    if all.contains(input) {
        let k = choose|k: int| 0 <= k < all.len() && all[k] == input;
        assert(clash_at(input, outputs, manifest, k) is None);
    }
}

/// The text put in place of a placeholder can be told from what comes out.
pub proof fn lemma_replaced_injective(
    text: Seq<char>,
    pattern: Seq<char>,
    a: Seq<char>,
    b: Seq<char>,
)
    requires
        pattern.len() > 0,
        occurs(text, pattern),
        replaced(text, pattern, a) == replaced(text, pattern, b),
    ensures
        a == b,
    decreases text.len(),
{
    let i = choose|i: int| occurs_at(text, pattern, i);
    assert(text.len() > 0);
    if occurs_at(text, pattern, 0) {
        let rest = text.skip(pattern.len() as int);
        lemma_replaced_len(rest, pattern, a);
        lemma_replaced_len(rest, pattern, b);
        let n = occurrences(rest, pattern);
        assert(replaced(text, pattern, a) == a + replaced(rest, pattern, a));
        assert(replaced(text, pattern, b) == b + replaced(rest, pattern, b));
        assert(a.len() == b.len()) by (nonlinear_arith)
            requires
                a.len() + (rest.len() - n * pattern.len() + n * a.len()) == b.len() + (rest.len()
                    - n * pattern.len() + n * b.len()),
                n >= 0,
        ;
        let left = replaced(text, pattern, a);
        assert(left.take(a.len() as int) =~= a);
        assert(replaced(text, pattern, b).take(b.len() as int) =~= b);
    } else {
        let rest = text.skip(1);
        assert(occurs_at(rest, pattern, i - 1)) by {
            assert forall|k: int| 0 <= k < pattern.len() implies rest[i - 1 + k]
                == #[trigger] pattern[k] by {
                assert(text[i + k] == pattern[k]);
            }
        }
        assert(replaced(text, pattern, a).skip(1) =~= replaced(rest, pattern, a));
        assert(replaced(text, pattern, b).skip(1) =~= replaced(rest, pattern, b));
        lemma_replaced_injective(rest, pattern, a, b);
    }
}

/// How often a pattern is replaced.
spec fn occurrences(text: Seq<char>, pattern: Seq<char>) -> nat
    decreases text.len(),
{
    if pattern.len() == 0 || text.len() == 0 {
        0
    } else if occurs_at(text, pattern, 0) {
        1 + occurrences(text.skip(pattern.len() as int), pattern)
    } else {
        occurrences(text.skip(1), pattern)
    }
}

proof fn lemma_replaced_len(text: Seq<char>, pattern: Seq<char>, by: Seq<char>)
    requires
        pattern.len() > 0,
    ensures
        replaced(text, pattern, by).len() == text.len() - occurrences(text, pattern)
            * pattern.len() + occurrences(text, pattern) * by.len(),
    decreases text.len(),
{
    if text.len() > 0 {
        if occurs_at(text, pattern, 0) {
            let rest = text.skip(pattern.len() as int);
            lemma_replaced_len(rest, pattern, by);
            let n = occurrences(rest, pattern);
            assert((n + 1) * pattern.len() == n * pattern.len() + pattern.len())
                by (nonlinear_arith);
            assert((n + 1) * by.len() == n * by.len() + by.len()) by (nonlinear_arith);
        } else {
            lemma_replaced_len(text.skip(1), pattern, by);
        }
    } else {
        assert(0 * pattern.len() == 0 && 0 * by.len() == 0) by (nonlinear_arith);
    }
}

/// Layers that are numbered differently are named differently.
pub proof fn lemma_layer_names_differ(pattern: Seq<char>, a: nat, b: nat)
    requires
        occurs(pattern, "{seq}"@),
        a != b,
    ensures
        numbered(pattern, a) != numbered(pattern, b),
{
    reveal_strlit("{seq}");
    if numbered(pattern, a) == numbered(pattern, b) {
        lemma_replaced_injective(pattern, "{seq}"@, decimal(a), decimal(b));
        lemma_decimal_injective(a, b);
    }
}

/// What the outcome of making paths is. Without text the path is used as given for one
/// time, and is refused for any other count. With text and one time, a path without a
/// placeholder stays as it is; for any other count the number or the valid time has to be
/// in it. Otherwise every time has its path, made with its own number and its own times,
/// unless the numbers run out or two of the paths are the same.
pub proof fn lemma_output_paths(
    pattern: Option<Seq<char>>,
    products: Seq<PreparedProduct>,
    start: usize,
)
    ensures
        ({
            let outcome = output_paths(pattern, products, start);
            let text = pattern->0;
            let has_number = occurs(text, "{seq}"@);
            let has_valid = occurs(text, "{valid_time}"@);
            let has_reference = occurs(text, "{reference_time}"@);
            let plain = !has_number && !has_valid && !has_reference;
            let one = products.len() == 1;
            &&& pattern is None ==> (outcome is AsGiven <==> one) && (outcome is NotText <==> !one)
            &&& pattern is Some && one && plain ==> outcome is Each && outcome->Each_0 == seq![text]
            &&& pattern is Some && !one && !has_number && !has_valid <==> outcome is NoPlaceholder
            &&& outcome is SequenceOverflow ==> start + products.len() > usize::MAX
            &&& pattern is Some && (one && !plain || has_number || has_valid) && start
                + products.len() > usize::MAX ==> outcome is SequenceOverflow
            &&& pattern is Some && (one && !plain || has_number || has_valid) && start
                + products.len() <= usize::MAX ==> outcome is Each || outcome is Duplicate
            &&& outcome is Each && !(one && plain) ==> outcome->Each_0.len() == products.len()
                && outcome->Each_0.no_duplicates() && forall|i: int|
                0 <= i < products.len() ==> #[trigger] outcome->Each_0[i] == expanded(
                    text,
                    (start + i) as nat,
                    products[i].product_id.datetime,
                    products[i].product_id.reference_datetime,
                )
            &&& outcome is Duplicate ==> exists|i: int, k: int|
                0 <= i < k < products.len() && #[trigger] expanded(
                    text,
                    (start + i) as nat,
                    products[i].product_id.datetime,
                    products[i].product_id.reference_datetime,
                ) == #[trigger] expanded(
                    text,
                    (start + k) as nat,
                    products[k].product_id.datetime,
                    products[k].product_id.reference_datetime,
                )
        }),
{
    let outcome = output_paths(pattern, products, start);
    if outcome is Duplicate {
        let all = expanded_all(pattern->0, products, start as nat);
        let (a, b) = choose|a: int, b: int|
            0 <= a < all.len() && 0 <= b < all.len() && a != b && all[a] == all[b];
        let (i, k) = if a < b {
            (a, b)
        } else {
            (b, a)
        };
        assert(all[i] == all[k]);
        assert(expanded(
            pattern->0,
            (start + i) as nat,
            products[i].product_id.datetime,
            products[i].product_id.reference_datetime,
        ) == expanded(
            pattern->0,
            (start + k) as nat,
            products[k].product_id.datetime,
            products[k].product_id.reference_datetime,
        ));
    }
}

/// How a placeholder is filled: the number in the place of `{seq}`, the valid time in the
/// place of `{valid_time}` and the reference time in the place of `{reference_time}`, with
/// what stands around each of them unchanged.
pub proof fn lemma_expanded(
    before: Seq<char>,
    behind: Seq<char>,
    sequence: nat,
    valid: i64,
    reference: i64,
)
    ensures
        stands_once(before, behind, "{seq}"@) && !occurs(
            before + decimal(sequence) + behind,
            "{valid_time}"@,
        ) && !occurs(before + decimal(sequence) + behind, "{reference_time}"@) ==> expanded(
            before + "{seq}"@ + behind,
            sequence,
            valid,
            reference,
        ) == before + decimal(sequence) + behind,
        stands_once(before, behind, "{valid_time}"@) && !occurs(
            before + "{valid_time}"@ + behind,
            "{seq}"@,
        ) && !occurs(
            before + compact_time_text(valid as int) + behind,
            "{reference_time}"@,
        ) ==> expanded(before + "{valid_time}"@ + behind, sequence, valid, reference) == before
            + compact_time_text(valid as int) + behind,
        stands_once(before, behind, "{reference_time}"@) && !occurs(
            before + "{reference_time}"@ + behind,
            "{seq}"@,
        ) && !occurs(before + "{reference_time}"@ + behind, "{valid_time}"@) ==> expanded(
            before + "{reference_time}"@ + behind,
            sequence,
            valid,
            reference,
        ) == before + compact_time_text(reference as int) + behind,
{
    reveal_strlit("{seq}");
    reveal_strlit("{valid_time}");
    reveal_strlit("{reference_time}");
    let number = decimal(sequence);
    let valid_text = compact_time_text(valid as int);
    let reference_text = compact_time_text(reference as int);
    let none = Seq::<char>::empty();
    lemma_replaced(before, behind, "{seq}"@, number);
    lemma_replaced(none, before + number + behind, "{valid_time}"@, valid_text);
    lemma_replaced(none, before + number + behind, "{reference_time}"@, reference_text);
    lemma_replaced(none, before + "{valid_time}"@ + behind, "{seq}"@, number);
    lemma_replaced(before, behind, "{valid_time}"@, valid_text);
    lemma_replaced(none, before + valid_text + behind, "{reference_time}"@, reference_text);
    lemma_replaced(none, before + "{reference_time}"@ + behind, "{seq}"@, number);
    lemma_replaced(none, before + "{reference_time}"@ + behind, "{valid_time}"@, valid_text);
    lemma_replaced(before, behind, "{reference_time}"@, reference_text);
}

/// A placeholder stands between two texts, and nowhere else in what they make.
pub open spec fn stands_once(before: Seq<char>, behind: Seq<char>, placeholder: Seq<char>) -> bool {
    &&& !occurs(behind, placeholder)
    &&& forall|i: int|
        0 <= i < before.len() ==> !#[trigger] occurs_at(
            before + placeholder + behind,
            placeholder,
            i,
        )
}

/// Where a path leads, step by step: a name leads into it, the directory above takes the
/// last name back and stays at the root, and the root drops all the names.
pub proof fn lemma_destination(steps: Seq<Step>, name: String)
    ensures
        destination(Seq::<Step>::empty()).len() == 0,
        destination(steps.push(Step::Name(name))) == destination(steps).push(name@),
        destination(steps.push(Step::Name(name)).push(Step::Parent)) == destination(steps),
        destination(steps).len() == 0 ==> destination(steps.push(Step::Parent)).len() == 0,
        destination(steps.push(Step::Current)) == destination(steps),
        destination(steps.push(Step::Root)).len() == 0,
{
    let into = steps.push(Step::Name(name));
    assert(into.drop_last() =~= steps);
    assert(destination(into) == destination(steps).push(name@));
    let back = into.push(Step::Parent);
    assert(back.drop_last() =~= into);
    assert(back.last() == Step::Parent);
    assert(destination(back) == destination(into).drop_last());
    assert(destination(steps).push(name@).drop_last() =~= destination(steps));
    assert(steps.push(Step::Parent).drop_last() =~= steps);
    assert(steps.push(Step::Current).drop_last() =~= steps);
    assert(steps.push(Step::Root).drop_last() =~= steps);
}

/// A URL is no longer than it has to be: it steps back out of the names of the directory
/// that the file does not share from the root on, and of no other.
pub proof fn lemma_url_shape(directory: Seq<Seq<char>>, output: Seq<Seq<char>>, n: int)
    requires
        0 <= n <= directory.len(),
        n <= output.len(),
        forall|k: int| 0 <= k < n ==> #[trigger] directory[k] == output[k],
        n == directory.len() || n == output.len() || directory[n] != output[n],
    ensures
        url_of(directory, output) == climb((directory.len() - n) as nat) + joined(
            output.skip(n),
            "/"@,
        ),
        climb(0).len() == 0,
        n < directory.len() ==> climb((directory.len() - n) as nat) == "../"@ + climb(
            (directory.len() - n - 1) as nat,
        ),
{
    lemma_shared(directory, output, n);
}

/// Everything that is written is looked at: the outputs in their order, and the manifest
/// behind them where there is one.
pub proof fn lemma_all_written(outputs: Seq<Vec<u8>>, manifest: Option<Vec<u8>>)
    ensures
        forall|i: int|
            0 <= i < outputs.len() ==> written(outputs, manifest)[i] == (#[trigger] outputs[i])@,
        manifest is Some ==> written(outputs, manifest).len() == outputs.len() + 1 && written(
            outputs,
            manifest,
        )[outputs.len() as int] == manifest->0@,
        manifest is None ==> written(outputs, manifest).len() == outputs.len(),
{
}

/// A clash names the first thing written that is the input or something written before
/// it. The input comes first where both hold.
pub proof fn lemma_clash(
    input: Seq<u8>,
    outputs: Seq<Vec<u8>>,
    manifest: Option<Vec<u8>>,
    clash: PathClash,
)
    requires
        clashes(input, outputs, manifest, clash),
        outputs.len() <= usize::MAX,
    ensures
        ({
            let target = match clash {
                PathClash::OverwritesInput(target) => target,
                PathClash::WrittenTwice(target) => target,
            };
            let own = match target {
                Target::Output(i) => outputs[i as int]@,
                Target::Manifest => manifest->0@,
            };
            let count = match target {
                Target::Output(i) => i as int,
                Target::Manifest => outputs.len() as int,
            };
            &&& target is Output ==> count < outputs.len()
            &&& target is Manifest ==> manifest is Some
            &&& clash is OverwritesInput ==> own == input
            &&& clash is WrittenTwice ==> own != input && exists|k: int|
                0 <= k < count && (#[trigger] outputs[k])@ == own
            &&& forall|k: int| 0 <= k < count ==> (#[trigger] outputs[k])@ != input
            &&& forall|j: int, k: int|
                #![trigger outputs[j], outputs[k]]
                0 <= j < k < count ==> outputs[j]@ != outputs[k]@
        }),
{
    let all = written(outputs, manifest);
    let n = choose|n: int| #[trigger] clashes_first(input, outputs, manifest, clash, n);
    let count = if n < outputs.len() {
        n
    } else {
        outputs.len() as int
    };
    assert(n == count);
    if clash is WrittenTwice {
        let k = choose|k: int| 0 <= k < all.take(n).len() && all.take(n)[k] == all[n];
        assert(outputs[k]@ == all[n]);
    }
    assert forall|k: int| 0 <= k < count implies (#[trigger] outputs[k])@ != input by {
        assert(clash_at(input, outputs, manifest, k) is None);
        assert(all[k] == outputs[k]@);
    }
    assert forall|j: int, k: int|
        #![trigger outputs[j], outputs[k]]
        0 <= j < k < count implies outputs[j]@ != outputs[k]@ by {
        assert(clash_at(input, outputs, manifest, k) is None);
        assert(all[k] == outputs[k]@ && all[j] == outputs[j]@);
        assert(all.take(k)[j] == all[j]);
    }
}

} // verus!
