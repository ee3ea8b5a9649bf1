//! Summarizing a database: its arguments, grouping, extremes, and the report.
use vstd::prelude::*;

use crate::metrics::SECOND_NS;
use crate::number;
use crate::order;
use crate::order::{Relation, TextPair};
use crate::proto::{PeerMetrics, PeerMetricsView};
use crate::text;

verus! {

/// Why there is no database to summarize. `S` is the type of the texts in it.
#[derive(Debug, Clone)]
pub enum ArgsErrorOf<S> {
    /// `--db` without a path.
    NoPath,
    /// The usage was asked for.
    Help,
    /// An argument that does not belong here.
    Unexpected(S),
    /// No `--db`.
    Missing,
}

pub type ArgsError = ArgsErrorOf<String>;

pub type ArgsErrorView = ArgsErrorOf<Seq<char>>;

impl View for ArgsErrorOf<String> {
    type V = ArgsErrorOf<Seq<char>>;

    open spec fn view(&self) -> ArgsErrorOf<Seq<char>> {
        match self {
            ArgsErrorOf::NoPath => ArgsErrorOf::NoPath,
            ArgsErrorOf::Help => ArgsErrorOf::Help,
            ArgsErrorOf::Unexpected(a) => ArgsErrorOf::Unexpected(a@),
            ArgsErrorOf::Missing => ArgsErrorOf::Missing,
        }
    }
}

/// The message of an argument error.
pub open spec fn args_error_text(e: ArgsErrorView) -> Seq<char> {
    match e {
        ArgsErrorOf::NoPath => "--db requires a path"@,
        ArgsErrorOf::Help => "usage: tperf analyze --db <file>"@,
        ArgsErrorOf::Unexpected(a) => "unexpected argument "@ + text::quoted(a)
            + "; usage: tperf analyze --db <file>"@,
        ArgsErrorOf::Missing => "missing --db; usage: tperf analyze --db <file>"@,
    }
}

impl ArgsErrorOf<String> {
    /// The message of the error.
    pub fn message(&self) -> (res: String)
        ensures
            res@ == args_error_text(self@),
    {
        let mut out = String::new();
        match self {
            ArgsErrorOf::NoPath => {
                out.append("--db requires a path");
            },
            ArgsErrorOf::Help => {
                out.append("usage: tperf analyze --db <file>");
            },
            ArgsErrorOf::Unexpected(a) => {
                out.append("unexpected argument ");
                out.append(text::quote(a.as_str()).as_str());
                out.append("; usage: tperf analyze --db <file>");
            },
            ArgsErrorOf::Missing => {
                out.append("missing --db; usage: tperf analyze --db <file>");
            },
        }
        assert(out@ =~= args_error_text(self@));
        out
    }
}

/// The argument is `--db=` and a path.
pub open spec fn has_db_prefix(a: Seq<char>) -> bool {
    a.len() >= 5 && a.take(5) == "--db="@
}

/// The path that the arguments from `i` on name; `db` is the last one that was
/// named before.
pub open spec fn args_from(args: Seq<Seq<char>>, i: int, db: Option<Seq<char>>) -> Result<
    Seq<char>,
    ArgsErrorView,
>
    decreases args.len() - i,
{
    if i >= args.len() {
        match db {
            Some(path) => Ok(path),
            None => Err(ArgsErrorOf::Missing),
        }
    } else if args[i] == "--db"@ {
        if i + 1 >= args.len() {
            Err(ArgsErrorOf::NoPath)
        } else {
            args_from(args, i + 2, Some(args[i + 1]))
        }
    } else if has_db_prefix(args[i]) {
        if args[i].len() == 5 {
            Err(ArgsErrorOf::NoPath)
        } else {
            args_from(args, i + 1, Some(args[i].skip(5)))
        }
    } else if args[i] == "-h"@ || args[i] == "--help"@ {
        Err(ArgsErrorOf::Help)
    } else {
        Err(ArgsErrorOf::Unexpected(args[i]))
    }
}

/// The path of the database that the arguments name, the last one if there are
/// several.
pub fn parse_args(args: &[String]) -> (res: Result<String, ArgsError>)
    ensures
        match res {
            Ok(path) => args_from(text::texts(args@), 0, None) == Ok::<Seq<char>, ArgsErrorView>(
                path@,
            ),
            Err(e) => args_from(text::texts(args@), 0, None) == Err::<Seq<char>, ArgsErrorView>(e@),
        },
{
    let ghost all = text::texts(args@);
    let n: usize = args.len();
    let mut db: Option<String> = None;
    let ghost mut named = None::<Seq<char>>;
    let mut i: usize = 0;
    while i < n
        invariant
            n == args@.len(),
            i <= n,
            all == text::texts(args@),
            named == (match db {
                Some(path) => Some(path@),
                None => None::<Seq<char>>,
            }),
            args_from(all, 0, None) == args_from(all, i as int, named),
        decreases n - i,
    {
        let chars = text::chars_of(args[i].as_str());
        let a = chars.as_slice();
        assert(a@ == all[i as int]);
        let head: usize = if a.len() < 5 {
            a.len()
        } else {
            5
        };
        let start = text::part(a, 0, head);
        assert(a@.len() >= 5 ==> start@ =~= a@.take(5));
        if text::spells(a, "--db") {
            i += 1;
            if i >= n {
                return Err(ArgsErrorOf::NoPath);
            }
            let path = args[i].clone();
            proof {
                named = Some(path@);
            }
            db = Some(path);
        } else if a.len() >= 5 && text::spells(start, "--db=") {
            if a.len() == 5 {
                return Err(ArgsErrorOf::NoPath);
            }
            let path = text::part(a, 5, a.len());
            assert(path@ =~= a@.skip(5));
            proof {
                named = Some(path@);
            }
            db = Some(text::string_of(path));
        } else if text::spells(a, "-h") || text::spells(a, "--help") {
            return Err(ArgsErrorOf::Help);
        } else {
            return Err(ArgsErrorOf::Unexpected(args[i].clone()));
        }
        i += 1;
    }
    match db {
        Some(path) => Ok(path),
        None => Err(ArgsErrorOf::Missing),
    }
}

/// What the file system says of a path.
#[derive(Debug, Clone, Copy, PartialEq, Eq, Structural)]
pub struct PathFacts {
    pub is_dir: bool,
    pub exists: bool,
    pub is_file: bool,
}

/// Why a path is no database file. `S` is the type of the path.
#[derive(Debug, Clone)]
pub enum DbFileErrorOf<S> {
    /// The path is empty.
    Empty,
    /// It is a directory.
    Directory(S),
    /// There is nothing.
    NotFound(S),
    /// It is something else than a file.
    NotFile(S),
}

pub type DbFileError = DbFileErrorOf<String>;

pub type DbFileErrorView = DbFileErrorOf<Seq<char>>;

impl View for DbFileErrorOf<String> {
    type V = DbFileErrorOf<Seq<char>>;

    open spec fn view(&self) -> DbFileErrorOf<Seq<char>> {
        match self {
            DbFileErrorOf::Empty => DbFileErrorOf::Empty,
            DbFileErrorOf::Directory(p) => DbFileErrorOf::Directory(p@),
            DbFileErrorOf::NotFound(p) => DbFileErrorOf::NotFound(p@),
            DbFileErrorOf::NotFile(p) => DbFileErrorOf::NotFile(p@),
        }
    }
}

/// The message of a database file error.
pub open spec fn db_file_error_text(e: DbFileErrorView) -> Seq<char> {
    match e {
        DbFileErrorOf::Empty => "--db requires a path to a sqlite database file"@,
        DbFileErrorOf::Directory(p) => "--db must be a sqlite database file, not a directory: "@ + p,
        DbFileErrorOf::NotFound(p) => "database file not found: "@ + p,
        DbFileErrorOf::NotFile(p) => "--db must be a sqlite database file: "@ + p,
    }
}

impl DbFileErrorOf<String> {
    /// The message of the error.
    pub fn message(&self) -> (res: String)
        ensures
            res@ == db_file_error_text(self@),
    {
        let mut out = String::new();
        match self {
            DbFileErrorOf::Empty => {
                out.append("--db requires a path to a sqlite database file");
            },
            DbFileErrorOf::Directory(p) => {
                out.append("--db must be a sqlite database file, not a directory: ");
                out.append(p.as_str());
            },
            DbFileErrorOf::NotFound(p) => {
                out.append("database file not found: ");
                out.append(p.as_str());
            },
            DbFileErrorOf::NotFile(p) => {
                out.append("--db must be a sqlite database file: ");
                out.append(p.as_str());
            },
        }
        assert(out@ =~= db_file_error_text(self@));
        out
    }
}

/// What is wrong with a path that is to be a database file, if anything.
pub open spec fn db_file_error(path: Seq<char>, facts: PathFacts) -> Option<DbFileErrorView> {
    if path.len() == 0 {
        Some(DbFileErrorOf::Empty)
    } else if facts.is_dir {
        Some(DbFileErrorOf::Directory(path))
    } else if !facts.exists {
        Some(DbFileErrorOf::NotFound(path))
    } else if !facts.is_file {
        Some(DbFileErrorOf::NotFile(path))
    } else {
        None
    }
}

/// `--db` must name a database file, not a directory.
pub fn require_db_file(path: &str, facts: PathFacts) -> (res: Result<(), DbFileError>)
    ensures
        match res {
            Ok(_) => db_file_error(path@, facts) is None,
            Err(e) => db_file_error(path@, facts) == Some(e@),
        },
{
    let chars = text::chars_of(path);
    let name = text::string_of(chars.as_slice());
    if chars.len() == 0 {
        return Err(DbFileErrorOf::Empty);
    }
    if facts.is_dir {
        return Err(DbFileErrorOf::Directory(name));
    }
    if !facts.exists {
        return Err(DbFileErrorOf::NotFound(name));
    }
    if !facts.is_file {
        return Err(DbFileErrorOf::NotFile(name));
    }
    Ok(())
}

/// Bytes, and the nanoseconds in which they were sent.
pub type Sample = (u64, u64);

/// One window of one server, as the database holds it.
#[derive(Debug, Clone)]
pub struct Row {
    pub server: String,
    pub wall_start_ns: u64,
    pub duration_ns: u64,
    pub bytes_sent: u64,
    pub peers: Vec<PeerMetrics>,
}

/// The content of a [`Row`].
pub struct RowView {
    pub server: Seq<char>,
    pub wall_start_ns: u64,
    pub duration_ns: u64,
    pub bytes_sent: u64,
    pub peers: Seq<PeerMetricsView>,
}

impl View for Row {
    type V = RowView;

    open spec fn view(&self) -> RowView {
        RowView {
            server: self.server@,
            wall_start_ns: self.wall_start_ns,
            duration_ns: self.duration_ns,
            bytes_sent: self.bytes_sent,
            peers: self.peers@.map_values(|p: PeerMetrics| p@),
        }
    }
}

/// What one server sent to another, window by window.
#[derive(Debug, Clone)]
pub struct PairSamples {
    pub src: String,
    pub dst: String,
    pub samples: Vec<Sample>,
}

/// The rows, by number, whose windows began in one second.
#[derive(Debug, Clone)]
pub struct Bucket {
    pub second: u64,
    pub rows: Vec<usize>,
}

/// The rows of a database, grouped: by pair of servers in the order of their
/// names, by second in order of time, and all together.
#[derive(Debug, Clone)]
pub struct Summary {
    pub pairs: Vec<PairSamples>,
    pub buckets: Vec<Bucket>,
    pub totals: Vec<Sample>,
}

/// The content of a [`Summary`].
#[verifier::ext_equal]
pub struct SummaryView {
    pub pairs: Map<TextPair, Seq<Sample>>,
    pub buckets: Map<u64, Seq<usize>>,
    pub totals: Seq<Sample>,
}

/// The names of a pair.
pub open spec fn key_of(p: PairSamples) -> TextPair {
    (p.src@, p.dst@)
}

/// Place `i` of the list belongs to the pair `k`.
pub open spec fn is_at(pairs: Seq<PairSamples>, k: TextPair, i: int) -> bool {
    0 <= i < pairs.len() && key_of(pairs[i]) == k
}

/// The samples by pair.
pub open spec fn pair_map(pairs: Seq<PairSamples>) -> Map<TextPair, Seq<Sample>> {
    Map::new(
        |k: TextPair| exists|i: int| is_at(pairs, k, i),
        |k: TextPair| pairs[choose|i: int| is_at(pairs, k, i)].samples@,
    )
}

/// The pairs come in the order of their names, each once.
pub open spec fn pairs_sorted(pairs: Seq<PairSamples>) -> bool {
    forall|i: int, j: int|
        0 <= i < j < pairs.len() ==> order::pair_before(
            key_of(#[trigger] pairs[i]),
            key_of(#[trigger] pairs[j]),
        )
}

/// Place `i` of the list belongs to the second.
pub open spec fn is_second(buckets: Seq<Bucket>, second: u64, i: int) -> bool {
    0 <= i < buckets.len() && buckets[i].second == second
}

/// The rows by second.
pub open spec fn bucket_map(buckets: Seq<Bucket>) -> Map<u64, Seq<usize>> {
    Map::new(
        |s: u64| exists|i: int| is_second(buckets, s, i),
        |s: u64| buckets[choose|i: int| is_second(buckets, s, i)].rows@,
    )
}

/// The seconds come in order, each once.
pub open spec fn buckets_sorted(buckets: Seq<Bucket>) -> bool {
    forall|i: int, j: int|
        0 <= i < j < buckets.len() ==> (#[trigger] buckets[i]).second < (
        #[trigger] buckets[j]).second
}

impl View for Summary {
    type V = SummaryView;

    open spec fn view(&self) -> SummaryView {
        SummaryView {
            pairs: pair_map(self.pairs@),
            buckets: bucket_map(self.buckets@),
            totals: self.totals@,
        }
    }
}

/// The list that the map holds for a key, or an empty one.
pub open spec fn list_at<K, T>(map: Map<K, Seq<T>>, k: K) -> Seq<T> {
    if map.dom().contains(k) {
        map[k]
    } else {
        Seq::empty()
    }
}

/// The map with one thing more at the end of the list for a key.
pub open spec fn added<K, T>(map: Map<K, Seq<T>>, k: K, x: T) -> Map<K, Seq<T>> {
    map.insert(k, list_at(map, k).push(x))
}

proof fn lemma_pair_at(pairs: Seq<PairSamples>, k: TextPair, i: int)
    requires
        pairs_sorted(pairs),
        is_at(pairs, k, i),
    ensures
        pair_map(pairs).dom().contains(k),
        pair_map(pairs)[k] == pairs[i].samples@,
{
    let j = choose|j: int| is_at(pairs, k, j);
    order::lemma_pair_irreflexive(k);
    if i < j {
        assert(order::pair_before(key_of(pairs[i]), key_of(pairs[j])));
    } else if j < i {
        assert(order::pair_before(key_of(pairs[j]), key_of(pairs[i])));
    }
}

/// The map after the list for one pair was replaced.
proof fn lemma_pair_replaced(
    before: Seq<PairSamples>,
    after: Seq<PairSamples>,
    i: int,
    sample: Sample,
)
    requires
        pairs_sorted(before),
        0 <= i < before.len(),
        after.len() == before.len(),
        forall|j: int| 0 <= j < before.len() && j != i ==> #[trigger] after[j] == before[j],
        key_of(after[i]) == key_of(before[i]),
        after[i].samples@ == before[i].samples@.push(sample),
    ensures
        pairs_sorted(after),
        pair_map(after) == added(pair_map(before), key_of(before[i]), sample),
{
    let k = key_of(before[i]);
    assert(forall|j: int| 0 <= j < after.len() ==> key_of(#[trigger] after[j]) == key_of(before[j]));
    assert(pairs_sorted(after)) by {
        assert forall|a: int, b: int| 0 <= a < b < after.len() implies order::pair_before(
            key_of(#[trigger] after[a]),
            key_of(#[trigger] after[b]),
        ) by {
            assert(order::pair_before(key_of(before[a]), key_of(before[b])));
        }
    }
    let want = added(pair_map(before), k, sample);
    assert(is_at(before, k, i));
    lemma_pair_at(before, k, i);
    assert forall|q: TextPair| pair_map(after).dom().contains(q) == want.dom().contains(q) by {
        if exists|j: int| is_at(after, q, j) {
            let j = choose|j: int| is_at(after, q, j);
            assert(is_at(before, q, j));
        }
        if exists|j: int| is_at(before, q, j) {
            let j = choose|j: int| is_at(before, q, j);
            assert(is_at(after, q, j));
        }
    }
    assert forall|q: TextPair| want.dom().contains(q) implies #[trigger] pair_map(after)[q]
        == want[q] by {
        let j = if q == k {
            i
        } else {
            choose|j: int| is_at(before, q, j)
        };
        assert(is_at(before, q, j));
        assert(is_at(after, q, j));
        lemma_pair_at(before, q, j);
        lemma_pair_at(after, q, j);
    }
    assert(pair_map(after) =~= want);
}

/// The map after a pair was inserted.
proof fn lemma_pair_inserted(before: Seq<PairSamples>, at: int, p: PairSamples, sample: Sample)
    requires
        pairs_sorted(before),
        0 <= at <= before.len(),
        p.samples@ == seq![sample],
        forall|j: int|
            0 <= j < at ==> order::pair_before(key_of(#[trigger] before[j]), key_of(p)),
        forall|j: int|
            at <= j < before.len() ==> order::pair_before(key_of(p), key_of(#[trigger] before[j])),
    ensures
        pairs_sorted(before.insert(at, p)),
        pair_map(before.insert(at, p)) == added(pair_map(before), key_of(p), sample),
{
    let after = before.insert(at, p);
    let k = key_of(p);
    assert(after[at] == p);
    assert(forall|j: int| 0 <= j < at ==> #[trigger] after[j] == before[j]);
    assert(forall|j: int| at < j < after.len() ==> #[trigger] after[j] == before[j - 1]);
    assert forall|a: int, b: int| 0 <= a < b < after.len() implies order::pair_before(
        key_of(#[trigger] after[a]),
        key_of(#[trigger] after[b]),
    ) by {
        if b < at {
            assert(order::pair_before(key_of(before[a]), key_of(before[b])));
        } else if b == at {
            assert(order::pair_before(key_of(before[a]), k));
        } else if a == at {
            assert(order::pair_before(k, key_of(before[b - 1])));
        } else if a > at {
            assert(order::pair_before(key_of(before[a - 1]), key_of(before[b - 1])));
        } else {
            assert(order::pair_before(key_of(before[a]), key_of(before[b - 1])));
        }
    }
    let want = added(pair_map(before), k, sample);
    assert(!pair_map(before).dom().contains(k)) by {
        if exists|j: int| is_at(before, k, j) {
            let j = choose|j: int| is_at(before, k, j);
            order::lemma_pair_irreflexive(k);
            if j < at {
                assert(order::pair_before(key_of(before[j]), k));
            } else {
                assert(order::pair_before(k, key_of(before[j])));
            }
        }
    }
    assert(is_at(after, k, at));
    lemma_pair_at(after, k, at);
    assert(want[k] =~= seq![sample]);
    assert forall|q: TextPair| pair_map(after).dom().contains(q) == want.dom().contains(q) by {
        if exists|j: int| is_at(after, q, j) {
            let j = choose|j: int| is_at(after, q, j);
            if j < at {
                assert(is_at(before, q, j));
            } else if j > at {
                assert(is_at(before, q, j - 1));
            }
        }
        if exists|j: int| is_at(before, q, j) {
            let j = choose|j: int| is_at(before, q, j);
            if j < at {
                assert(is_at(after, q, j));
            } else {
                assert(is_at(after, q, j + 1));
            }
        }
    }
    assert forall|q: TextPair| want.dom().contains(q) implies #[trigger] pair_map(after)[q]
        == want[q] by {
        if q != k {
            let j = choose|j: int| is_at(before, q, j);
            assert(is_at(before, q, j));
            lemma_pair_at(before, q, j);
            if j < at {
                assert(is_at(after, q, j));
                lemma_pair_at(after, q, j);
            } else {
                assert(is_at(after, q, j + 1));
                lemma_pair_at(after, q, j + 1);
            }
        }
    }
    assert(pair_map(after) =~= want);
}

/// Adds a sample to a pair.
fn add_pair_sample(pairs: &mut Vec<PairSamples>, src: &str, dst: &str, sample: Sample)
    requires
        pairs_sorted(old(pairs)@),
    ensures
        pairs_sorted(final(pairs)@),
        pair_map(final(pairs)@) == added(pair_map(old(pairs)@), (src@, dst@), sample),
{
    let ghost k = (src@, dst@);
    let ghost before = pairs@;
    let mut low: usize = 0;
    let mut high: usize = pairs.len();
    while low < high
        invariant
            pairs@ == before,
            pairs_sorted(before),
            k == (src@, dst@),
            low <= high <= before.len(),
            pairs_sorted(old(pairs)@),
            old(pairs)@ == before,
            forall|j: int|
                0 <= j < low ==> order::pair_before(key_of(#[trigger] before[j]), k),
            forall|j: int|
                high <= j < before.len() ==> order::pair_before(k, key_of(#[trigger] before[j])),
        decreases high - low,
    {
        let mid: usize = low + (high - low) / 2;
        let here = (pairs[mid].src.as_str(), pairs[mid].dst.as_str());
        match order::relate_pairs(here, (src, dst)) {
            Relation::Same => {
                pairs[mid].samples.push(sample);
                proof {
                    lemma_pair_replaced(before, pairs@, mid as int, sample);
                }
                return;
            },
            Relation::Before => {
                proof {
                    assert forall|j: int| 0 <= j < mid + 1 implies order::pair_before(
                        key_of(#[trigger] before[j]),
                        k,
                    ) by {
                        if j < mid {
                            assert(order::pair_before(
                                key_of(before[j]),
                                key_of(before[mid as int]),
                            ));
                            order::lemma_pair_transitive(
                                key_of(before[j]),
                                key_of(before[mid as int]),
                                k,
                            );
                        }
                    }
                }
                low = mid + 1;
            },
            Relation::After => {
                proof {
                    assert forall|j: int| mid <= j < before.len() implies order::pair_before(
                        k,
                        key_of(#[trigger] before[j]),
                    ) by {
                        if j > mid {
                            assert(order::pair_before(
                                key_of(before[mid as int]),
                                key_of(before[j]),
                            ));
                            order::lemma_pair_transitive(
                                k,
                                key_of(before[mid as int]),
                                key_of(before[j]),
                            );
                        }
                    }
                }
                high = mid;
            },
        }
    }
    let mut samples: Vec<Sample> = Vec::new();
    samples.push(sample);
    let mut a = String::new();
    a.append(src);
    let mut b = String::new();
    b.append(dst);
    let p = PairSamples { src: a, dst: b, samples };
    proof {
        assert(p.samples@ =~= seq![sample]);
        assert(p.src@ =~= src@);
        assert(p.dst@ =~= dst@);
        lemma_pair_inserted(before, low as int, p, sample);
    }
    pairs.insert(low, p);
}

proof fn lemma_bucket_at(buckets: Seq<Bucket>, second: u64, i: int)
    requires
        buckets_sorted(buckets),
        is_second(buckets, second, i),
    ensures
        bucket_map(buckets).dom().contains(second),
        bucket_map(buckets)[second] == buckets[i].rows@,
{
    let j = choose|j: int| is_second(buckets, second, j);
    assert(is_second(buckets, second, j));
    assert(i == j);
}

/// The map after a row was added to a bucket.
proof fn lemma_bucket_replaced(before: Seq<Bucket>, after: Seq<Bucket>, i: int, row: usize)
    requires
        buckets_sorted(before),
        0 <= i < before.len(),
        after.len() == before.len(),
        forall|j: int| 0 <= j < before.len() && j != i ==> #[trigger] after[j] == before[j],
        after[i].second == before[i].second,
        after[i].rows@ == before[i].rows@.push(row),
    ensures
        buckets_sorted(after),
        bucket_map(after) == added(bucket_map(before), before[i].second, row),
{
    let k = before[i].second;
    assert(forall|j: int|
        0 <= j < after.len() ==> (#[trigger] after[j]).second == before[j].second);
    assert(buckets_sorted(after)) by {
        assert forall|a: int, b: int| 0 <= a < b < after.len() implies (#[trigger] after[a]).second
            < (#[trigger] after[b]).second by {
            assert(before[a].second < before[b].second);
        }
    }
    let want = added(bucket_map(before), k, row);
    assert(is_second(before, k, i));
    lemma_bucket_at(before, k, i);
    assert forall|q: u64| bucket_map(after).dom().contains(q) == want.dom().contains(q) by {
        if exists|j: int| is_second(after, q, j) {
            let j = choose|j: int| is_second(after, q, j);
            assert(is_second(before, q, j));
        }
        if exists|j: int| is_second(before, q, j) {
            let j = choose|j: int| is_second(before, q, j);
            assert(is_second(after, q, j));
        }
    }
    assert forall|q: u64| want.dom().contains(q) implies #[trigger] bucket_map(after)[q]
        == want[q] by {
        let j = if q == k {
            i
        } else {
            choose|j: int| is_second(before, q, j)
        };
        assert(is_second(before, q, j));
        assert(is_second(after, q, j));
        lemma_bucket_at(before, q, j);
        lemma_bucket_at(after, q, j);
    }
    assert(bucket_map(after) =~= want);
}

/// The map after a bucket was inserted.
proof fn lemma_bucket_inserted(before: Seq<Bucket>, at: int, b: Bucket, row: usize)
    requires
        buckets_sorted(before),
        0 <= at <= before.len(),
        b.rows@ == seq![row],
        forall|j: int| 0 <= j < at ==> (#[trigger] before[j]).second < b.second,
        forall|j: int| at <= j < before.len() ==> b.second < (#[trigger] before[j]).second,
    ensures
        buckets_sorted(before.insert(at, b)),
        bucket_map(before.insert(at, b)) == added(bucket_map(before), b.second, row),
{
    let after = before.insert(at, b);
    let k = b.second;
    assert(after[at] == b);
    assert(forall|j: int| 0 <= j < at ==> #[trigger] after[j] == before[j]);
    assert(forall|j: int| at < j < after.len() ==> #[trigger] after[j] == before[j - 1]);
    let want = added(bucket_map(before), k, row);
    assert(!bucket_map(before).dom().contains(k)) by {
        if exists|j: int| is_second(before, k, j) {
            let j = choose|j: int| is_second(before, k, j);
            assert(before[j].second == k);
        }
    }
    assert(is_second(after, k, at));
    lemma_bucket_at(after, k, at);
    assert(want[k] =~= seq![row]);
    assert forall|q: u64| bucket_map(after).dom().contains(q) == want.dom().contains(q) by {
        if exists|j: int| is_second(after, q, j) {
            let j = choose|j: int| is_second(after, q, j);
            if j < at {
                assert(is_second(before, q, j));
            } else if j > at {
                assert(is_second(before, q, j - 1));
            }
        }
        if exists|j: int| is_second(before, q, j) {
            let j = choose|j: int| is_second(before, q, j);
            if j < at {
                assert(is_second(after, q, j));
            } else {
                assert(is_second(after, q, j + 1));
            }
        }
    }
    assert forall|q: u64| want.dom().contains(q) implies #[trigger] bucket_map(after)[q]
        == want[q] by {
        if q != k {
            let j = choose|j: int| is_second(before, q, j);
            assert(is_second(before, q, j));
            lemma_bucket_at(before, q, j);
            if j < at {
                assert(is_second(after, q, j));
                lemma_bucket_at(after, q, j);
            } else {
                assert(is_second(after, q, j + 1));
                lemma_bucket_at(after, q, j + 1);
            }
        }
    }
    assert(bucket_map(after) =~= want);
}

/// Adds a row to the bucket of a second.
fn add_bucket_row(buckets: &mut Vec<Bucket>, second: u64, row: usize)
    requires
        buckets_sorted(old(buckets)@),
    ensures
        buckets_sorted(final(buckets)@),
        bucket_map(final(buckets)@) == added(bucket_map(old(buckets)@), second, row),
{
    let ghost before = buckets@;
    let mut low: usize = 0;
    let mut high: usize = buckets.len();
    while low < high
        invariant
            buckets@ == before,
            old(buckets)@ == before,
            buckets_sorted(before),
            low <= high <= before.len(),
            forall|j: int| 0 <= j < low ==> (#[trigger] before[j]).second < second,
            forall|j: int| high <= j < before.len() ==> second < (#[trigger] before[j]).second,
        decreases high - low,
    {
        let mid: usize = low + (high - low) / 2;
        let here: u64 = buckets[mid].second;
        if here == second {
            buckets[mid].rows.push(row);
            proof {
                lemma_bucket_replaced(before, buckets@, mid as int, row);
            }
            return;
        }
        assert(before[mid as int].second == here);
        if here < second {
            low = mid + 1;
        } else {
            high = mid;
        }
    }
    let mut rows: Vec<usize> = Vec::new();
    rows.push(row);
    let b = Bucket { second, rows };
    proof {
        assert(b.rows@ =~= seq![row]);
        lemma_bucket_inserted(before, low as int, b, row);
    }
    buckets.insert(low, b);
}

/// The samples by pair, with those of the first `k` peers of a row. What a server
/// counted of itself is left out.
pub open spec fn with_peers(map: Map<TextPair, Seq<Sample>>, row: RowView, k: int) -> Map<
    TextPair,
    Seq<Sample>,
>
    decreases k,
{
    if k <= 0 {
        map
    } else {
        let before = with_peers(map, row, k - 1);
        let p = row.peers[k - 1];
        if p.peer == row.server {
            before
        } else {
            added(before, (row.server, p.peer), (p.bytes_sent, row.duration_ns))
        }
    }
}

impl SummaryView {
    /// Nothing is summarized yet.
    pub open spec fn nothing() -> SummaryView {
        SummaryView { pairs: Map::empty(), buckets: Map::empty(), totals: Seq::empty() }
    }

    /// With one row more.
    pub open spec fn with_row(self, row: RowView) -> SummaryView {
        SummaryView {
            pairs: with_peers(self.pairs, row, row.peers.len() as int),
            buckets: added(
                self.buckets,
                row.wall_start_ns / SECOND_NS,
                self.totals.len() as usize,
            ),
            totals: self.totals.push((row.bytes_sent, row.duration_ns)),
        }
    }
}

/// The summary of the first `k` rows.
pub open spec fn summary_of(rows: Seq<RowView>, k: int) -> SummaryView
    decreases k,
{
    if k <= 0 {
        SummaryView::nothing()
    } else {
        summary_of(rows, k - 1).with_row(rows[k - 1])
    }
}

impl Summary {
    /// Pairs and seconds come in order, each once.
    pub open spec fn wf(self) -> bool {
        pairs_sorted(self.pairs@) && buckets_sorted(self.buckets@)
    }

    /// A summary of nothing.
    pub fn new() -> (res: Summary)
        ensures
            res.wf(),
            res@ == SummaryView::nothing(),
    {
        let res = Summary { pairs: Vec::new(), buckets: Vec::new(), totals: Vec::new() };
        assert(res@.pairs =~= Map::empty());
        assert(res@.buckets =~= Map::empty());
        assert(res@ =~= SummaryView::nothing());
        res
    }

    /// Adds a row.
    pub fn add_row(&mut self, row: &Row)
        requires
            old(self).wf(),
        ensures
            final(self).wf(),
            final(self)@ == old(self)@.with_row(row@),
    {
        let n: usize = row.peers.len();
        let number: usize = self.totals.len();
        let mut i: usize = 0;
        while i < n
            invariant
                n == row.peers@.len(),
                i <= n,
                self.wf(),
                self.buckets == old(self).buckets,
                self.totals == old(self).totals,
                pair_map(self.pairs@) == with_peers(pair_map(old(self).pairs@), row@, i as int),
            decreases n - i,
        {
            let p = &row.peers[i];
            assert(row@.peers[i as int] == p@);
            if !text::same_text(p.peer.as_str(), row.server.as_str()) {
                add_pair_sample(
                    &mut self.pairs,
                    row.server.as_str(),
                    p.peer.as_str(),
                    (p.bytes_sent, row.duration_ns),
                );
            }
            i += 1;
        }
        assert(row@.peers.len() == n);
        add_bucket_row(&mut self.buckets, row.wall_start_ns / SECOND_NS, number);
        self.totals.push((row.bytes_sent, row.duration_ns));
        assert(self@ =~= old(self)@.with_row(row@));
    }
}

/// The views of rows.
pub open spec fn row_views(rows: Seq<Row>) -> Seq<RowView> {
    rows.map_values(|r: Row| r@)
}

/// Summarizes the rows of a database.
pub fn summarize(rows: &[Row]) -> (res: Summary)
    ensures
        res.wf(),
        res@ == summary_of(row_views(rows@), rows@.len() as int),
{
    let ghost all = row_views(rows@);
    let n: usize = rows.len();
    let mut summary = Summary::new();
    let mut i: usize = 0;
    while i < n
        invariant
            n == rows@.len(),
            i <= n,
            all == row_views(rows@),
            summary.wf(),
            summary@ == summary_of(all, i as int),
        decreases n - i,
    {
        assert(all[i as int] == rows@[i as int]@);
        summary.add_row(&rows[i]);
        i += 1;
    }
    summary
}

proof fn lemma_sample_comes_from_peer(
    map: Map<TextPair, Seq<Sample>>,
    row: RowView,
    k: int,
    pair: TextPair,
)
    requires
        0 <= k <= row.peers.len(),
    ensures
        pair.0 != row.server || pair.1 == row.server ==> list_at(with_peers(map, row, k), pair)
            == list_at(map, pair),
    decreases k,
{
    if k > 0 {
        lemma_sample_comes_from_peer(map, row, k - 1, pair);
    }
}

/// What the first `k` peers of a row say of a pair.
pub open spec fn samples_in_row(row: RowView, pair: TextPair, k: int) -> Seq<Sample>
    decreases k,
{
    if k <= 0 {
        Seq::empty()
    } else {
        let before = samples_in_row(row, pair, k - 1);
        let p = row.peers[k - 1];
        if (row.server, p.peer) == pair {
            before.push((p.bytes_sent, row.duration_ns))
        } else {
            before
        }
    }
}

/// What the first `k` rows say of a pair, row after row.
pub open spec fn samples_in_rows(rows: Seq<RowView>, pair: TextPair, k: int) -> Seq<Sample>
    decreases k,
{
    if k <= 0 {
        Seq::empty()
    } else {
        samples_in_rows(rows, pair, k - 1) + samples_in_row(
            rows[k - 1],
            pair,
            rows[k - 1].peers.len() as int,
        )
    }
}

proof fn lemma_row_samples(map: Map<TextPair, Seq<Sample>>, row: RowView, pair: TextPair, k: int)
    requires
        0 <= k <= row.peers.len(),
        pair.0 != pair.1,
    ensures
        list_at(with_peers(map, row, k), pair) == list_at(map, pair) + samples_in_row(row, pair, k),
    decreases k,
{
    if k > 0 {
        lemma_row_samples(map, row, pair, k - 1);
        let before = list_at(with_peers(map, row, k - 1), pair);
        let p = row.peers[k - 1];
        if (row.server, p.peer) == pair {
            assert(list_at(with_peers(map, row, k), pair) =~= list_at(map, pair) + samples_in_row(
                row,
                pair,
                k,
            ));
        }
    } else {
        assert(list_at(map, pair) + samples_in_row(row, pair, 0) =~= list_at(map, pair));
    }
}

/// The samples of a pair are what the rows of the sender say of the receiver, row
/// after row: nothing is lost, added or moved.
pub proof fn law_pair_samples_are_complete(rows: Seq<RowView>, pair: TextPair, k: int)
    requires
        0 <= k <= rows.len(),
        pair.0 != pair.1,
    ensures
        list_at(summary_of(rows, k).pairs, pair) == samples_in_rows(rows, pair, k),
    decreases k,
{
    if k > 0 {
        law_pair_samples_are_complete(rows, pair, k - 1);
        lemma_row_samples(
            summary_of(rows, k - 1).pairs,
            rows[k - 1],
            pair,
            rows[k - 1].peers.len() as int,
        );
    }
}

/// A server is never paired with itself, however the rows look.
pub proof fn law_no_server_meets_itself(rows: Seq<RowView>, k: int, name: Seq<char>)
    requires
        0 <= k <= rows.len(),
    ensures
        list_at(summary_of(rows, k).pairs, (name, name)) == Seq::<Sample>::empty(),
    decreases k,
{
    if k > 0 {
        law_no_server_meets_itself(rows, k - 1, name);
        lemma_sample_comes_from_peer(
            summary_of(rows, k - 1).pairs,
            rows[k - 1],
            rows[k - 1].peers.len() as int,
            (name, name),
        );
    }
}

/// A row is in the bucket of the second in which its window began, and in no
/// other.
pub proof fn law_rows_are_in_their_second(rows: Seq<RowView>, k: int, i: int, second: u64)
    requires
        0 <= i < k <= rows.len() <= usize::MAX,
    ensures
        list_at(summary_of(rows, k).buckets, second).contains(i as usize) <==> second
            == rows[i].wall_start_ns / SECOND_NS,
        summary_of(rows, k).totals.len() == k,
        summary_of(rows, k).totals[i] == (rows[i].bytes_sent, rows[i].duration_ns),
    decreases k,
{
    let before = summary_of(rows, k - 1);
    lemma_bucket_rows(rows, k - 1, second);
    let old_list = list_at(before.buckets, second);
    let new_list = list_at(summary_of(rows, k).buckets, second);
    let home = rows[k - 1].wall_start_ns / SECOND_NS;
    if second == home {
        assert(new_list == old_list.push((k - 1) as usize));
        assert(new_list[old_list.len() as int] == (k - 1) as usize);
        assert(forall|j: int| 0 <= j < old_list.len() ==> #[trigger] new_list[j] == old_list[j]);
        if i < k - 1 && new_list.contains(i as usize) {
            let j = choose|j: int| 0 <= j < new_list.len() && new_list[j] == i as usize;
            assert(old_list[j] == i as usize);
        }
        if i < k - 1 && old_list.contains(i as usize) {
            let j = choose|j: int| 0 <= j < old_list.len() && old_list[j] == i as usize;
            assert(new_list[j] == i as usize);
        }
    } else {
        assert(new_list == old_list);
    }
    if i < k - 1 {
        law_rows_are_in_their_second(rows, k - 1, i, second);
    }
}

/// The buckets of the first `k` rows hold only numbers below `k`.
proof fn lemma_bucket_rows(rows: Seq<RowView>, k: int, second: u64)
    requires
        0 <= k <= rows.len() <= usize::MAX,
    ensures
        summary_of(rows, k).totals.len() == k,
        forall|j: int|
            0 <= j < list_at(summary_of(rows, k).buckets, second).len() ==> (#[trigger] list_at(
                summary_of(rows, k).buckets,
                second,
            )[j]) < k,
    decreases k,
{
    if k > 0 {
        lemma_bucket_rows(rows, k - 1, second);
        let old_list = list_at(summary_of(rows, k - 1).buckets, second);
        let new_list = list_at(summary_of(rows, k).buckets, second);
        assert forall|j: int| 0 <= j < new_list.len() implies (#[trigger] new_list[j]) < k by {
            if j < old_list.len() {
                assert(new_list[j] == old_list[j]);
            }
        }
    }
}

/// The rates of a group of windows. The lowest and the highest are given as the
/// bits of a double-precision number; not below 0, such numbers are in order when
/// their bits are.
#[derive(Debug, Clone, Copy, PartialEq, Eq, Structural)]
pub struct RateStats {
    pub min_bps: u64,
    pub max_bps: u64,
    /// All bytes, or the largest number if they are more.
    pub bytes: u64,
    /// All nanoseconds.
    pub duration_ns: u128,
    pub windows: usize,
}

/// The bytes of the first `k` samples.
pub open spec fn bytes_in(samples: Seq<Sample>, k: int) -> int
    decreases k,
{
    if k <= 0 {
        0
    } else {
        bytes_in(samples, k - 1) + samples[k - 1].0
    }
}

/// The nanoseconds of the first `k` samples.
pub open spec fn time_in(samples: Seq<Sample>, k: int) -> int
    decreases k,
{
    if k <= 0 {
        0
    } else {
        time_in(samples, k - 1) + samples[k - 1].1
    }
}

/// The least of some numbers.
pub open spec fn is_least(x: u64, s: Seq<u64>) -> bool {
    s.contains(x) && forall|i: int| 0 <= i < s.len() ==> x <= #[trigger] s[i]
}

/// The greatest of some numbers.
pub open spec fn is_greatest(x: u64, s: Seq<u64>) -> bool {
    s.contains(x) && forall|i: int| 0 <= i < s.len() ==> x >= #[trigger] s[i]
}

impl RateStats {
    /// These are the rates of the windows, of which `rates` holds the rate of each.
    pub open spec fn describes(self, samples: Seq<Sample>, rates: Seq<u64>) -> bool {
        let n = samples.len() as int;
        &&& is_least(self.min_bps, rates)
        &&& is_greatest(self.max_bps, rates)
        &&& self.bytes == (if bytes_in(samples, n) > u64::MAX {
            u64::MAX as int
        } else {
            bytes_in(samples, n)
        })
        &&& self.duration_ns == time_in(samples, n)
        &&& self.windows == n
    }

    /// The rates of a group of windows, of which `rates` holds the rate of each;
    /// `None` for no windows.
    pub fn from_samples(samples: &[Sample], rates: &[u64]) -> (res: Option<RateStats>)
        requires
            samples@.len() == rates@.len(),
        ensures
            match res {
                None => samples@.len() == 0,
                Some(s) => samples@.len() > 0 && s.describes(samples@, rates@),
            },
    {
        let n: usize = samples.len();
        if n == 0 {
            return None;
        }
        let mut low: u64 = rates[0];
        let mut high: u64 = rates[0];
        let mut bytes: u64 = 0;
        let mut time: u128 = 0;
        let mut i: usize = 0;
        assert(rates@[0] == low);
        while i < n
            invariant
                n == samples@.len(),
                n == rates@.len(),
                i <= n,
                rates@.contains(low),
                rates@.contains(high),
                forall|j: int| 0 <= j < i ==> low <= #[trigger] rates@[j] && rates@[j] <= high,
                bytes_in(samples@, i as int) >= 0,
                bytes == (if bytes_in(samples@, i as int) > u64::MAX {
                    u64::MAX as int
                } else {
                    bytes_in(samples@, i as int)
                }),
                time == time_in(samples@, i as int),
                time <= i * 0xffff_ffff_ffff_ffff,
            decreases n - i,
        {
            let (b, d) = samples[i];
            let r: u64 = rates[i];
            assert(rates@[i as int] == r);
            if r < low {
                low = r;
            }
            if r > high {
                high = r;
            }
            bytes = bytes.saturating_add(b);
            time = time + d as u128;
            i += 1;
        }
        Some(
            RateStats {
                min_bps: low,
                max_bps: high,
                bytes,
                duration_ns: time,
                windows: n,
            },
        )
    }
}

/// The samples, each with its rate.
pub open spec fn rated(samples: Seq<Sample>, rates: Seq<u64>) -> Seq<(Sample, u64)> {
    Seq::new(samples.len(), |i: int| (samples[i], rates[i]))
}

/// The samples without their rates.
spec fn unrated(items: Seq<(Sample, u64)>) -> Seq<Sample> {
    Seq::new(items.len(), |i: int| items[i].0)
}

/// The sums over the first `k` samples, after one was taken out.
proof fn lemma_taken_out(samples: Seq<Sample>, j: int, k: int)
    requires
        0 <= j < samples.len(),
        0 <= k <= samples.len(),
    ensures
        k <= j ==> bytes_in(samples.remove(j), k) == bytes_in(samples, k),
        k <= j ==> time_in(samples.remove(j), k) == time_in(samples, k),
        k > j ==> bytes_in(samples.remove(j), k - 1) + samples[j].0 == bytes_in(samples, k),
        k > j ==> time_in(samples.remove(j), k - 1) + samples[j].1 == time_in(samples, k),
    decreases k,
{
    if k > 0 {
        lemma_taken_out(samples, j, k - 1);
        let rest = samples.remove(j);
        if k <= j {
            assert(rest[k - 1] == samples[k - 1]);
        } else if k > j + 1 {
            assert(rest[k - 2] == samples[k - 1]);
        }
    }
}

/// The sums are the same in any order.
proof fn lemma_sums_in_any_order(a: Seq<(Sample, u64)>, b: Seq<(Sample, u64)>)
    requires
        a.to_multiset() == b.to_multiset(),
    ensures
        a.len() == b.len(),
        bytes_in(unrated(a), a.len() as int) == bytes_in(unrated(b), b.len() as int),
        time_in(unrated(a), a.len() as int) == time_in(unrated(b), b.len() as int),
    decreases a.len(),
{
    broadcast use vstd::seq_lib::group_to_multiset_ensures;

    let n = a.len() as int;
    a.to_multiset_ensures();
    b.to_multiset_ensures();
    if n > 0 {
        let x = a[n - 1];
        assert(a.contains(x));
        assert(a.to_multiset().count(x) > 0);
        assert(b.contains(x));
        let j = choose|j: int| 0 <= j < b.len() && b[j] == x;
        let c = a.remove(n - 1);
        let d = b.remove(j);
        lemma_sums_in_any_order(c, d);
        assert(unrated(c) =~= unrated(a).remove(n - 1));
        assert(unrated(d) =~= unrated(b).remove(j));
        lemma_taken_out(unrated(a), n - 1, n);
        lemma_taken_out(unrated(b), j, n);
    }
}

/// A rate of one list is a rate of the other.
proof fn lemma_rate_in_any_order(
    samples: Seq<Sample>,
    rates: Seq<u64>,
    others: Seq<Sample>,
    other_rates: Seq<u64>,
    x: u64,
)
    requires
        samples.len() == rates.len(),
        others.len() == other_rates.len(),
        rated(samples, rates).to_multiset() == rated(others, other_rates).to_multiset(),
        rates.contains(x),
    ensures
        other_rates.contains(x),
{
    broadcast use vstd::seq_lib::group_to_multiset_ensures;

    let a = rated(samples, rates);
    let b = rated(others, other_rates);
    let i = choose|i: int| 0 <= i < rates.len() && rates[i] == x;
    assert(a.contains(a[i]));
    assert(a.to_multiset().count(a[i]) > 0);
    assert(b.contains(a[i]));
    let j = choose|j: int| 0 <= j < b.len() && b[j] == a[i];
    assert(other_rates[j] == x);
}

/// The order of the windows makes no difference to their rates.
pub proof fn law_order_makes_no_difference(
    samples: Seq<Sample>,
    rates: Seq<u64>,
    stats: RateStats,
    others: Seq<Sample>,
    other_rates: Seq<u64>,
    other_stats: RateStats,
)
    requires
        samples.len() == rates.len(),
        others.len() == other_rates.len(),
        rated(samples, rates).to_multiset() == rated(others, other_rates).to_multiset(),
        stats.describes(samples, rates),
        other_stats.describes(others, other_rates),
    ensures
        stats == other_stats,
{
    let a = rated(samples, rates);
    let b = rated(others, other_rates);
    lemma_sums_in_any_order(a, b);
    assert(unrated(a) =~= samples);
    assert(unrated(b) =~= others);
    lemma_rate_in_any_order(samples, rates, others, other_rates, stats.min_bps);
    lemma_rate_in_any_order(samples, rates, others, other_rates, stats.max_bps);
    lemma_rate_in_any_order(others, other_rates, samples, rates, other_stats.min_bps);
    lemma_rate_in_any_order(others, other_rates, samples, rates, other_stats.max_bps);
}

proof fn lemma_average(samples: Seq<Sample>, x: Sample, k: int)
    requires
        0 <= k <= samples.len(),
    ensures
        (forall|j: int|
            0 <= j < samples.len() ==> x.0 * (#[trigger] samples[j]).1 <= samples[j].0 * x.1) ==> x.0
            * time_in(samples, k) <= bytes_in(samples, k) * x.1,
        (forall|j: int|
            0 <= j < samples.len() ==> x.0 * (#[trigger] samples[j]).1 >= samples[j].0 * x.1) ==> x.0
            * time_in(samples, k) >= bytes_in(samples, k) * x.1,
    decreases k,
{
    if k > 0 {
        lemma_average(samples, x, k - 1);
        let (b, d) = samples[k - 1];
        vstd::arithmetic::mul::lemma_mul_is_distributive_add(
            x.0 as int,
            time_in(samples, k - 1),
            d as int,
        );
        vstd::arithmetic::mul::lemma_mul_is_distributive_add_other_way(
            x.1 as int,
            bytes_in(samples, k - 1),
            b as int,
        );
    }
}

/// The average lies between the lowest and the highest rate, all three as exact
/// quotients of bytes and time: `low` and `high` are the numbers of windows with
/// the lowest and the highest one.
pub proof fn law_average_lies_between(
    samples: Seq<Sample>,
    rates: Seq<u64>,
    stats: RateStats,
    low: int,
    high: int,
)
    requires
        stats.describes(samples, rates),
        bytes_in(samples, samples.len() as int) <= u64::MAX,
        0 <= low < samples.len(),
        0 <= high < samples.len(),
        forall|j: int| 0 <= j < samples.len() ==> (#[trigger] samples[j]).1 > 0,
        forall|j: int|
            0 <= j < samples.len() ==> samples[low].0 * (#[trigger] samples[j]).1 <= samples[j].0
                * samples[low].1,
        forall|j: int|
            0 <= j < samples.len() ==> samples[high].0 * (#[trigger] samples[j]).1 >= samples[j].0
                * samples[high].1,
    ensures
        stats.duration_ns > 0,
        samples[low].0 * stats.duration_ns <= stats.bytes * samples[low].1,
        samples[high].0 * stats.duration_ns >= stats.bytes * samples[high].1,
{
    let n = samples.len() as int;
    lemma_average(samples, samples[low], n);
    lemma_average(samples, samples[high], n);
    lemma_time_grows(samples, n);
}

proof fn lemma_time_grows(samples: Seq<Sample>, k: int)
    requires
        0 <= k <= samples.len(),
        forall|j: int| 0 <= j < samples.len() ==> (#[trigger] samples[j]).1 > 0,
    ensures
        time_in(samples, k) >= k,
    decreases k,
{
    if k > 0 {
        lemma_time_grows(samples, k - 1);
        assert(samples[k - 1].1 > 0);
    }
}

/// How many of the worst pairs are shown.
pub const WORST: usize = 5;

/// Pair `a` is worse than pair `b`: its average is lower, or as low with a lower
/// minimum, or all the same and it comes first.
pub open spec fn worse(rates: Seq<(u64, u64)>, a: int, b: int) -> bool {
    let (x, y) = (rates[a], rates[b]);
    x.0 < y.0 || (x.0 == y.0 && (x.1 < y.1 || (x.1 == y.1 && a < b)))
}

/// The list holds the worst of the first `n` pairs, the worst first.
pub open spec fn is_worst(rates: Seq<(u64, u64)>, list: Seq<usize>, n: int) -> bool {
    &&& list.len() == (if n < WORST {
        n
    } else {
        WORST as int
    })
    &&& forall|i: int| 0 <= i < list.len() ==> (#[trigger] list[i]) < n
    &&& forall|i: int, j: int|
        0 <= i < j < list.len() ==> worse(
            rates,
            (#[trigger] list[i]) as int,
            (#[trigger] list[j]) as int,
        )
    &&& forall|p: int, i: int|
        #![trigger rates[p], list[i]]
        0 <= p < n && !list.contains(p as usize) && 0 <= i < list.len() ==> worse(
            rates,
            list[i] as int,
            p,
        )
}

/// As long as there are not too many pairs, the list holds all of them.
spec fn holds_all(list: Seq<usize>, n: int) -> bool {
    n <= WORST ==> forall|q: usize| q < n ==> #[trigger] list.contains(q)
}

/// The worst pairs, by number, from the average and the lowest rate of each (as
/// bits, see [`RateStats`]).
pub fn worst_pairs(rates: &[(u64, u64)]) -> (res: Vec<usize>)
    ensures
        is_worst(rates@, res@, rates@.len() as int),
{
    let n: usize = rates.len();
    let mut list: Vec<usize> = Vec::new();
    let mut p: usize = 0;
    while p < n
        invariant
            n == rates@.len(),
            p <= n,
            is_worst(rates@, list@, p as int),
            holds_all(list@, p as int),
        decreases n - p,
    {
        let ghost before = list@;
        let (avg, low) = rates[p];
        let m: usize = list.len();
        let mut at: usize = m;
        while at > 0 && (avg < rates[list[at - 1]].0 || (avg == rates[list[at - 1]].0 && low
            < rates[list[at - 1]].1))
            invariant
                n == rates@.len(),
                p < n,
                (avg, low) == rates@[p as int],
                list@ == before,
                m == before.len(),
                at <= m,
                is_worst(rates@, before, p as int),
                forall|j: int| at <= j < m ==> worse(rates@, p as int, (#[trigger] before[j]) as int),
            decreases at,
        {
            assert(before[at - 1] < p);
            at -= 1;
        }
        list.insert(at, p);
        proof {
            lemma_worst_inserted(rates@, before, p as int, at as int);
        }
        if list.len() > WORST {
            list.truncate(WORST);
        }
        p += 1;
    }
    list
}

/// The list stays right when a pair is inserted at its place and the list is cut.
proof fn lemma_worst_inserted(rates: Seq<(u64, u64)>, before: Seq<usize>, p: int, at: int)
    requires
        0 <= p < rates.len() <= usize::MAX,
        is_worst(rates, before, p),
        holds_all(before, p),
        0 <= at <= before.len(),
        forall|j: int| at <= j < before.len() ==> worse(rates, p, (#[trigger] before[j]) as int),
        at > 0 ==> !worse(rates, p, before[at - 1] as int),
    ensures
        ({
            let all = before.insert(at, p as usize);
            let cut = if all.len() > WORST {
                all.take(WORST as int)
            } else {
                all
            };
            is_worst(rates, cut, p + 1) && holds_all(cut, p + 1)
        }),
{
    let all = before.insert(at, p as usize);
    let cut = if all.len() > WORST {
        all.take(WORST as int)
    } else {
        all
    };
    assert(all[at] == p as usize);
    assert(forall|j: int| 0 <= j < at ==> #[trigger] all[j] == before[j]);
    assert(forall|j: int| at < j < all.len() ==> #[trigger] all[j] == before[j - 1]);
    assert forall|j: int| 0 <= j < at implies worse(rates, (#[trigger] before[j]) as int, p) by {
        let last = before[at - 1] as int;
        assert(before[at - 1] < p);
        assert(worse(rates, last, p));
        if j < at - 1 {
            assert(worse(rates, before[j] as int, last));
        }
    }
    assert forall|i: int, j: int| 0 <= i < j < all.len() implies worse(
        rates,
        (#[trigger] all[i]) as int,
        (#[trigger] all[j]) as int,
    ) by {
        if j < at {
            assert(worse(rates, before[i] as int, before[j] as int));
        } else if j == at {
            assert(worse(rates, before[i] as int, p));
        } else if i == at {
            assert(worse(rates, p, before[j - 1] as int));
        } else if i > at {
            assert(worse(rates, before[i - 1] as int, before[j - 1] as int));
        } else {
            assert(worse(rates, before[i] as int, before[j - 1] as int));
        }
    }
    assert forall|q: int, i: int|
        #![trigger rates[q], cut[i]]
        0 <= q < p + 1 && !cut.contains(q as usize) && 0 <= i < cut.len() implies worse(
        rates,
        cut[i] as int,
        q,
    ) by {
        assert(cut[i] == all[i]);
        if all.contains(q as usize) {
            let j = choose|j: int| 0 <= j < all.len() && all[j] == q as usize;
            if j < cut.len() {
                assert(cut[j] == q as usize);
            }
            assert(worse(rates, all[i] as int, all[j] as int));
        } else {
            assert(q != p);
            if before.contains(q as usize) {
                let j = choose|j: int| 0 <= j < before.len() && before[j] == q as usize;
                if j < at {
                    assert(all[j] == q as usize);
                } else {
                    assert(all[j + 1] == q as usize);
                }
            }
            assert(!before.contains(q as usize));
            if before.len() > 0 {
                if i < at {
                    assert(worse(rates, before[i] as int, q));
                } else if i > at {
                    assert(worse(rates, before[i - 1] as int, q));
                } else {
                    // The list was full, so the new pair is worse than its last one.
                    assert(p >= WORST) by {
                        if p < WORST {
                            assert(before.contains(q as usize));
                        }
                    }
                    assert(before.len() == WORST);
                    assert(at < before.len());
                    assert(worse(rates, p, before[at] as int));
                    assert(worse(rates, before[at] as int, q));
                }
            } else {
                assert(p == 0);
            }
        }
    }
    if p + 1 <= WORST {
        assert forall|q: usize| q < p + 1 implies #[trigger] cut.contains(q) by {
            if q == p {
                assert(cut[at] == q);
            } else {
                assert(before.contains(q));
                let j = choose|j: int| 0 <= j < before.len() && before[j] == q;
                if j < at {
                    assert(cut[j] == q);
                } else {
                    assert(cut[j + 1] == q);
                }
            }
        }
    }
    assert forall|i: int| 0 <= i < cut.len() implies (#[trigger] cut[i]) < p + 1 by {
        assert(cut[i] == all[i]);
    }
    assert forall|i: int, j: int| 0 <= i < j < cut.len() implies worse(
        rates,
        (#[trigger] cut[i]) as int,
        (#[trigger] cut[j]) as int,
    ) by {
        assert(cut[i] == all[i] && cut[j] == all[j]);
    }
}

/// What is shown of a pair. The rates come as texts.
#[derive(Debug, Clone)]
pub struct PairLine {
    pub src: String,
    pub dst: String,
    pub min: String,
    pub avg: String,
    pub max: String,
}

/// What is shown of a database. The rates come as texts.
#[derive(Debug, Clone)]
pub struct Report {
    pub db_path: String,
    pub tag: String,
    pub hosts: usize,
    pub pairs: Vec<PairLine>,
    /// Lowest rate of all servers together.
    pub total_min: String,
    /// Average rate of all servers together.
    pub total_avg: String,
    /// Highest rate of all servers together.
    pub total_max: String,
    /// The worst pairs, by number.
    pub worst: Vec<usize>,
}

/// How wide the label of a pair is taken to be: the bytes of the two names, and
/// four more.
pub open spec fn label_bytes(p: PairLine) -> nat {
    vstd::utf8::encode_utf8(p.src@).len() + vstd::utf8::encode_utf8(p.dst@).len() + 4
}

/// The width of the widest label of the first `k` pairs, as far as it can be
/// told.
pub open spec fn label_width(pairs: Seq<PairLine>, k: int) -> nat
    decreases k,
{
    if k <= 0 {
        0
    } else {
        let before = label_width(pairs, k - 1);
        let here = label_bytes(pairs[k - 1]);
        if here <= before {
            before
        } else if here <= usize::MAX {
            here
        } else {
            usize::MAX as nat
        }
    }
}

/// The three rates of a line.
pub open spec fn rates_text(min: Seq<char>, avg: Seq<char>, max: Seq<char>) -> Seq<char> {
    "  min="@ + min + "   avg="@ + avg + "   max="@ + max
}

/// The line that shows a pair.
pub open spec fn pair_text(p: PairLine, width: nat) -> Seq<char> {
    text::filled("["@ + p.src@ + " → "@ + p.dst@ + "]"@, width) + rates_text(
        p.min@,
        p.avg@,
        p.max@,
    )
}

/// The lines that show the pairs.
pub open spec fn pair_lines(pairs: Seq<PairLine>) -> Seq<Seq<char>> {
    if pairs.len() == 0 {
        seq!["(no pair samples)"@]
    } else {
        Seq::new(
            pairs.len(),
            |i: int| pair_text(pairs[i], label_width(pairs, pairs.len() as int)),
        )
    }
}

/// The pairs with the given numbers.
pub open spec fn chosen(pairs: Seq<PairLine>, list: Seq<usize>) -> Seq<PairLine> {
    Seq::new(list.len(), |i: int| pairs[list[i] as int])
}

/// The line before the text, with its number before it.
pub open spec fn numbered(i: int, line: Seq<char>) -> Seq<char> {
    let n = number::decimal((i + 1) as nat);
    (if n.len() < 2 {
        " "@ + n
    } else {
        n
    }) + ". "@ + line
}

/// The lines that show the worst pairs, numbered.
pub open spec fn worst_lines(pairs: Seq<PairLine>) -> Seq<Seq<char>> {
    if pairs.len() == 0 {
        seq!["(no pair samples)"@]
    } else {
        Seq::new(
            pairs.len(),
            |i: int|
                numbered(i, pair_text(pairs[i], label_width(pairs, pairs.len() as int))),
        )
    }
}

/// The lines of a report.
pub open spec fn report_text(r: Report) -> Seq<Seq<char>> {
    seq![
        "tperf analyze  db="@ + r.db_path@ + "  tag="@ + r.tag@ + "  hosts="@ + number::decimal(
            r.hosts as nat,
        ),
        ""@,
        "pairs (all time)"@,
        "----------------"@,
    ] + pair_lines(r.pairs@) + seq![
        ""@,
        "total throughput (all time)"@,
        "---------------------------"@,
        text::filled("[all]"@, 12) + rates_text(r.total_min@, r.total_avg@, r.total_max@),
        ""@,
        "worst pairs"@,
        "-----------"@,
    ] + worst_lines(chosen(r.pairs@, r.worst@))
}

fn width_of(pairs: &[PairLine]) -> (res: usize)
    ensures
        res == label_width(pairs@, pairs@.len() as int),
{
    let n: usize = pairs.len();
    let mut width: usize = 0;
    let mut i: usize = 0;
    while i < n
        invariant
            n == pairs@.len(),
            i <= n,
            width == label_width(pairs@, i as int),
        decreases n - i,
    {
        let here: usize = pairs[i].src.as_str().as_bytes().len().saturating_add(
            pairs[i].dst.as_str().as_bytes().len(),
        ).saturating_add(4);
        if here > width {
            width = here;
        }
        i += 1;
    }
    width
}

fn push_rates(out: &mut String, min: &str, avg: &str, max: &str)
    ensures
        final(out)@ == old(out)@ + rates_text(min@, avg@, max@),
{
    out.append("  min=");
    out.append(min);
    out.append("   avg=");
    out.append(avg);
    out.append("   max=");
    out.append(max);
    assert(out@ =~= old(out)@ + rates_text(min@, avg@, max@));
}

/// The line that shows a pair.
pub fn format_pair_line(p: &PairLine, width: usize) -> (res: String)
    ensures
        res@ == pair_text(*p, width as nat),
{
    let mut label = String::new();
    label.append("[");
    label.append(p.src.as_str());
    label.append(" → ");
    label.append(p.dst.as_str());
    label.append("]");
    assert(label@ =~= "["@ + p.src@ + " → "@ + p.dst@ + "]"@);
    let mut out = String::new();
    text::push_filled(&mut out, label.as_str(), width);
    push_rates(&mut out, p.min.as_str(), p.avg.as_str(), p.max.as_str());
    assert(out@ =~= pair_text(*p, width as nat));
    out
}

fn push_line(lines: &mut Vec<String>, line: &str)
    ensures
        text::texts(final(lines)@) == text::texts(old(lines)@).push(line@),
{
    let mut s = String::new();
    s.append(line);
    assert(s@ =~= line@);
    lines.push(s);
    assert(text::texts(lines@) =~= text::texts(old(lines)@).push(line@));
}

fn push_pairs(lines: &mut Vec<String>, pairs: &[PairLine], with_numbers: bool)
    ensures
        text::texts(final(lines)@) == text::texts(old(lines)@) + (if with_numbers {
            worst_lines(pairs@)
        } else {
            pair_lines(pairs@)
        }),
{
    let ghost start = text::texts(lines@);
    let ghost want = if with_numbers {
        worst_lines(pairs@)
    } else {
        pair_lines(pairs@)
    };
    let n: usize = pairs.len();
    if n == 0 {
        push_line(lines, "(no pair samples)");
        assert(text::texts(lines@) =~= start + want);
        return;
    }
    let width: usize = width_of(pairs);
    let mut i: usize = 0;
    assert(text::texts(lines@) =~= start + want.take(0));
    while i < n
        invariant
            n == pairs@.len(),
            i <= n,
            n > 0,
            width == label_width(pairs@, n as int),
            want == (if with_numbers {
                worst_lines(pairs@)
            } else {
                pair_lines(pairs@)
            }),
            text::texts(lines@) == start + want.take(i as int),
        decreases n - i,
    {
        let line = format_pair_line(&pairs[i], width);
        let ghost before = text::texts(lines@);
        if with_numbers {
            let digits = number::decimal_text(i as u64 + 1);
            let mut s = String::new();
            if digits.as_str().unicode_len() < 2 {
                s.append(" ");
            }
            s.append(digits.as_str());
            s.append(". ");
            s.append(line.as_str());
            assert(s@ =~= numbered(i as int, line@));
            push_line(lines, s.as_str());
        } else {
            push_line(lines, line.as_str());
        }
        assert(text::texts(lines@) =~= before.push(want[i as int]));
        i += 1;
        assert(text::texts(lines@) =~= start + want.take(i as int));
    }
    assert(want.take(n as int) =~= want);
}

/// The lines of a report.
pub fn report_lines(r: &Report) -> (res: Vec<String>)
    requires
        forall|i: int| 0 <= i < r.worst@.len() ==> (#[trigger] r.worst@[i]) < r.pairs@.len(),
    ensures
        text::texts(res@) == report_text(*r),
{
    let mut head = String::new();
    head.append("tperf analyze  db=");
    head.append(r.db_path.as_str());
    head.append("  tag=");
    head.append(r.tag.as_str());
    head.append("  hosts=");
    number::push_decimal(&mut head, r.hosts as u64);
    let mut total = String::new();
    text::push_filled(&mut total, "[all]", 12);
    push_rates(&mut total, r.total_min.as_str(), r.total_avg.as_str(), r.total_max.as_str());
    let mut worst: Vec<PairLine> = Vec::new();
    let n: usize = r.worst.len();
    let mut i: usize = 0;
    while i < n
        invariant
            n == r.worst@.len(),
            i <= n,
            forall|j: int| 0 <= j < r.worst@.len() ==> (#[trigger] r.worst@[j]) < r.pairs@.len(),
            worst@ == chosen(r.pairs@, r.worst@).take(i as int),
        decreases n - i,
    {
        let p = &r.pairs[r.worst[i]];
        worst.push(
            PairLine {
                src: p.src.clone(),
                dst: p.dst.clone(),
                min: p.min.clone(),
                avg: p.avg.clone(),
                max: p.max.clone(),
            },
        );
        i += 1;
        assert(worst@ =~= chosen(r.pairs@, r.worst@).take(i as int));
    }
    assert(worst@ =~= chosen(r.pairs@, r.worst@));
    let mut lines: Vec<String> = Vec::new();
    push_line(&mut lines, head.as_str());
    push_line(&mut lines, "");
    push_line(&mut lines, "pairs (all time)");
    push_line(&mut lines, "----------------");
    push_pairs(&mut lines, r.pairs.as_slice(), false);
    push_line(&mut lines, "");
    push_line(&mut lines, "total throughput (all time)");
    push_line(&mut lines, "---------------------------");
    push_line(&mut lines, total.as_str());
    push_line(&mut lines, "");
    push_line(&mut lines, "worst pairs");
    push_line(&mut lines, "-----------");
    push_pairs(&mut lines, worst.as_slice(), true);
    proof {
        assert(head@ =~= "tperf analyze  db="@ + r.db_path@ + "  tag="@ + r.tag@ + "  hosts="@
            + number::decimal(r.hosts as nat));
        assert(total@ =~= text::filled("[all]"@, 12) + rates_text(
            r.total_min@,
            r.total_avg@,
            r.total_max@,
        ));
        assert(text::texts(lines@) =~= report_text(*r));
    }
    lines
}

/// The label of a pair and its three rates, in one line. The label is filled up with
/// blanks to `width` characters.
pub open spec fn shows_pair(line: Seq<char>, p: PairLine, width: nat) -> bool {
    line == text::filled(seq!['['] + p.src@ + seq![' ', '→', ' '] + p.dst@ + seq![']'], width)
        + "  min="@ + p.min@ + "   avg="@ + p.avg@ + "   max="@ + p.max@
}

proof fn lemma_pair_text(p: PairLine, width: nat)
    ensures
        shows_pair(pair_text(p, width), p, width),
{
    reveal_strlit("[");
    reveal_strlit("]");
    reveal_strlit(" → ");
    assert("["@ =~= seq!['[']);
    assert("]"@ =~= seq![']']);
    assert(" → "@ =~= seq![' ', '→', ' ']);
    let label = seq!['['] + p.src@ + seq![' ', '→', ' '] + p.dst@ + seq![']'];
    assert("["@ + p.src@ + " → "@ + p.dst@ + "]"@ == label);
    assert(pair_text(p, width) =~= text::filled(label, width) + "  min="@ + p.min@ + "   avg="@
        + p.avg@ + "   max="@ + p.max@);
}

/// The width is that of the widest label: the bytes of the two names, and four more.
pub open spec fn is_width(pairs: Seq<PairLine>, width: nat) -> bool {
    &&& forall|i: int|
        0 <= i < pairs.len() ==> vstd::utf8::encode_utf8((#[trigger] pairs[i]).src@).len()
            + vstd::utf8::encode_utf8(pairs[i].dst@).len() + 4 <= width
    &&& exists|i: int|
        0 <= i < pairs.len() && vstd::utf8::encode_utf8((#[trigger] pairs[i]).src@).len()
            + vstd::utf8::encode_utf8(pairs[i].dst@).len() + 4 == width
}

proof fn lemma_label_width(pairs: Seq<PairLine>, k: int)
    requires
        0 < k <= pairs.len(),
        forall|i: int| 0 <= i < pairs.len() ==> label_bytes(#[trigger] pairs[i]) <= usize::MAX,
    ensures
        is_width(pairs.take(k), label_width(pairs, k)),
    decreases k,
{
    reveal_with_fuel(label_width, 2);
    let last = pairs[k - 1];
    let now = pairs.take(k);
    assert(now[k - 1] == last);
    assert(label_bytes(last) <= usize::MAX);
    if k > 1 {
        lemma_label_width(pairs, k - 1);
        let before = pairs.take(k - 1);
        assert(forall|i: int| 0 <= i < k - 1 ==> #[trigger] now[i] == before[i]);
        let i = choose|i: int|
            0 <= i < before.len() && vstd::utf8::encode_utf8((#[trigger] before[i]).src@).len()
                + vstd::utf8::encode_utf8(before[i].dst@).len() + 4 == label_width(pairs, k - 1);
        assert(now[i] == before[i]);
        assert forall|j: int| 0 <= j < k implies vstd::utf8::encode_utf8(
            (#[trigger] now[j]).src@,
        ).len() + vstd::utf8::encode_utf8(now[j].dst@).len() + 4 <= label_width(pairs, k) by {
            if j < k - 1 {
                assert(now[j] == before[j]);
            }
        }
    }
}

/// What a report shows. Its first line names the database, the tag and the number of
/// hosts. Line `i` of the pairs is the label and the lowest, average and highest rate
/// of pair `i`. Under the totals stand those of all servers. Line `i` of the worst
/// pairs is, after its number, the label and the three rates of one and the same pair,
/// number `worst[i]`: up to the width of the label, the line that the report shows for
/// that pair among all pairs.
#[verifier::rlimit(60)]
#[verifier::spinoff_prover]
pub proof fn law_report_shows_each_pair(r: Report, i: int)
    requires
        r.pairs@.len() > 0,
        r.worst@.len() > 0,
        forall|k: int| 0 <= k < r.worst@.len() ==> (#[trigger] r.worst@[k]) < r.pairs@.len(),
        forall|k: int| 0 <= k < r.pairs@.len() ==> label_bytes(#[trigger] r.pairs@[k]) <= usize::MAX,
    ensures
        ({
            let n = r.pairs@.len() as int;
            let lines = report_text(r);
            let width = choose|w: nat| is_width(r.pairs@, w);
            &&& lines.len() == n + 11 + r.worst@.len()
            &&& lines[0] == "tperf analyze  db="@ + r.db_path@ + "  tag="@ + r.tag@ + "  hosts="@
                + number::decimal(r.hosts as nat)
            &&& lines[2] == "pairs (all time)"@
            &&& lines[n + 5] == "total throughput (all time)"@
            &&& lines[n + 7] == text::filled(seq!['[', 'a', 'l', 'l', ']'], 12) + "  min="@
                + r.total_min@ + "   avg="@ + r.total_avg@ + "   max="@ + r.total_max@
            &&& lines[n + 9] == "worst pairs"@
            &&& 0 <= i < n ==> shows_pair(lines[4 + i], r.pairs@[i], width)
            &&& 0 <= i < r.worst@.len() ==> {
                let line = lines[n + 11 + i];
                let number = number::decimal((i + 1) as nat);
                let front = (if i < 9 {
                    seq![' ']
                } else {
                    Seq::empty()
                }) + number + seq!['.', ' '];
                let shown = Seq::new(r.worst@.len(), |k: int| r.pairs@[r.worst@[k] as int]);
                exists|w: nat, rest: Seq<char>|
                    #[trigger] shows_pair(rest, r.pairs@[r.worst@[i] as int], w) && line == front
                        + rest && is_width(shown, w)
            }
        }),
{
    let n = r.pairs@.len() as int;
    let lines = report_text(r);
    let picked = chosen(r.pairs@, r.worst@);
    let width = label_width(r.pairs@, n);
    lemma_label_width(r.pairs@, n);
    assert(r.pairs@.take(n) =~= r.pairs@);
    assert(is_width(r.pairs@, width));
    let w = choose|w: nat| is_width(r.pairs@, w);
    assert(w == width) by {
        let a = choose|a: int|
            0 <= a < n && vstd::utf8::encode_utf8((#[trigger] r.pairs@[a]).src@).len()
                + vstd::utf8::encode_utf8(r.pairs@[a].dst@).len() + 4 == width;
        let b = choose|b: int|
            0 <= b < n && vstd::utf8::encode_utf8((#[trigger] r.pairs@[b]).src@).len()
                + vstd::utf8::encode_utf8(r.pairs@[b].dst@).len() + 4 == w;
        assert(r.pairs@[a] == r.pairs@[a] && r.pairs@[b] == r.pairs@[b]);
    }
    reveal_strlit("[all]");
    assert("[all]"@ =~= seq!['[', 'a', 'l', 'l', ']']);
    assert(rates_text(r.total_min@, r.total_avg@, r.total_max@) == "  min="@ + r.total_min@
        + "   avg="@ + r.total_avg@ + "   max="@ + r.total_max@);
    assert(lines[n + 7] =~= text::filled(seq!['[', 'a', 'l', 'l', ']'], 12) + "  min="@
        + r.total_min@ + "   avg="@ + r.total_avg@ + "   max="@ + r.total_max@);
    if 0 <= i < n {
        assert(lines[4 + i] == pair_text(r.pairs@[i], width));
        lemma_pair_text(r.pairs@[i], width);
    }
    if 0 <= i < r.worst@.len() {
        let line = lines[n + 11 + i];
        let p = r.pairs@[r.worst@[i] as int];
        let other = label_width(picked, picked.len() as int);
        let rest = pair_text(p, other);
        assert(picked[i] == p);
        assert(line == numbered(i, rest));
        let shown = Seq::new(r.worst@.len(), |k: int| r.pairs@[r.worst@[k] as int]);
        assert(picked =~= shown);
        assert forall|k: int| 0 <= k < picked.len() implies label_bytes(#[trigger] picked[k])
            <= usize::MAX by {
            assert(r.worst@[k] < r.pairs@.len());
            assert(label_bytes(r.pairs@[r.worst@[k] as int]) <= usize::MAX);
        }
        lemma_label_width(picked, picked.len() as int);
        assert(picked.take(picked.len() as int) =~= shown);
        lemma_pair_text(p, other);
        reveal_strlit(" ");
        reveal_strlit(". ");
        assert(" "@ =~= seq![' ']);
        assert(". "@ =~= seq!['.', ' ']);
        let number = number::decimal((i + 1) as nat);
        assert(number.len() < 2 <==> i < 9) by {
            if i >= 9 {
                number::lemma_decimal(((i + 1) / 10) as nat);
            }
        }
        let front = (if i < 9 {
            seq![' ']
        } else {
            Seq::empty()
        }) + number + seq!['.', ' '];
        assert(line =~= front + rest);
    }
}

/// A report without pairs says so, twice.
pub proof fn law_report_without_pairs(r: Report)
    requires
        r.pairs@.len() == 0,
        r.worst@.len() == 0,
    ensures
        report_text(r).len() == 13,
        report_text(r)[4] == "(no pair samples)"@,
        report_text(r)[12] == "(no pair samples)"@,
{
}

/// The worst pairs are the up to five with the lowest average: those with a lower one
/// come first, of two with the same one the one with the lower minimum, and no pair
/// that is left out has a lower average than one that is shown.
pub proof fn law_worst_are_the_lowest(rates: Seq<(u64, u64)>, list: Seq<usize>, i: int, j: int)
    requires
        rates.len() <= usize::MAX,
        is_worst(rates, list, rates.len() as int),
    ensures
        list.len() == if rates.len() < 5 {
            rates.len()
        } else {
            5
        },
        0 <= i < list.len() ==> list[i] < rates.len(),
        0 <= i < j < list.len() ==> {
            let (x, y) = (rates[list[i] as int], rates[list[j] as int]);
            &&& list[i] != list[j]
            &&& x.0 < y.0 || x.0 == y.0 && (x.1 < y.1 || x.1 == y.1 && list[i] < list[j])
        },
        0 <= i < list.len() && 0 <= j < rates.len() && !list.contains(j as usize) ==> {
            let (x, y) = (rates[list[i] as int], rates[j]);
            x.0 < y.0 || x.0 == y.0 && x.1 <= y.1
        },
{
    if 0 <= i < j < list.len() {
        assert(worse(rates, list[i] as int, list[j] as int));
    }
    if 0 <= i < list.len() && 0 <= j < rates.len() && !list.contains(j as usize) {
        let (x, y) = (list[i], rates[j]);
        assert(worse(rates, list[i] as int, j));
    }
}

/// The rates of a group are bounds that are reached: no window has a lower rate than
/// the lowest or a higher one than the highest, and some window has each.
pub proof fn law_extremes_are_reached(samples: Seq<Sample>, rates: Seq<u64>, s: RateStats)
    requires
        s.describes(samples, rates),
    ensures
        forall|i: int| 0 <= i < rates.len() ==> s.min_bps <= #[trigger] rates[i] <= s.max_bps,
        exists|i: int| 0 <= i < rates.len() && #[trigger] rates[i] == s.min_bps,
        exists|i: int| 0 <= i < rates.len() && #[trigger] rates[i] == s.max_bps,
        s.windows == samples.len(),
{
}

proof fn lemma_sums_before(samples: Seq<Sample>, x: Sample, k: int)
    requires
        0 <= k <= samples.len(),
    ensures
        bytes_in(samples.push(x), k) == bytes_in(samples, k),
        time_in(samples.push(x), k) == time_in(samples, k),
        bytes_in(samples, k) >= 0,
        time_in(samples, k) >= 0,
    decreases k,
{
    if k > 0 {
        lemma_sums_before(samples, x, k - 1);
        assert(samples.push(x)[k - 1] == samples[k - 1]);
    }
}

/// One window more adds its bytes and its time to those of the group.
pub proof fn law_one_window_more(
    samples: Seq<Sample>,
    rates: Seq<u64>,
    s: RateStats,
    bytes: u64,
    time: u64,
    rate: u64,
    t: RateStats,
)
    requires
        samples.len() == rates.len(),
        s.describes(samples, rates),
        t.describes(samples.push((bytes, time)), rates.push(rate)),
    ensures
        s.bytes + bytes <= u64::MAX && s.bytes < u64::MAX ==> t.bytes == s.bytes + bytes,
        s.bytes + bytes > u64::MAX ==> t.bytes == u64::MAX,
        t.bytes >= s.bytes,
        t.duration_ns == s.duration_ns + time,
        t.windows == s.windows + 1,
        t.min_bps == if rate < s.min_bps {
            rate
        } else {
            s.min_bps
        },
        t.max_bps == if rate > s.max_bps {
            rate
        } else {
            s.max_bps
        },
{
    let n = samples.len() as int;
    lemma_sums_before(samples, (bytes, time), n);
    let more = rates.push(rate);
    assert(more[n] == rate);
    assert(forall|i: int| 0 <= i < n ==> #[trigger] more[i] == rates[i]);
    let a = choose|i: int| 0 <= i < rates.len() && rates[i] == s.min_bps;
    let b = choose|i: int| 0 <= i < rates.len() && rates[i] == s.max_bps;
    assert(more[a] == s.min_bps && more[b] == s.max_bps);
    let c = choose|i: int| 0 <= i < more.len() && more[i] == t.min_bps;
    let d = choose|i: int| 0 <= i < more.len() && more[i] == t.max_bps;
    if c < n {
        assert(rates[c] == t.min_bps);
    }
    if d < n {
        assert(rates[d] == t.max_bps);
    }
}

/// The group of a single window is that window.
pub proof fn law_single_window(bytes: u64, time: u64, rate: u64, s: RateStats)
    requires
        s.describes(seq![(bytes, time)], seq![rate]),
    ensures
        s == (RateStats {
            min_bps: rate,
            max_bps: rate,
            bytes,
            duration_ns: time as u128,
            windows: 1,
        }),
{
    reveal_with_fuel(bytes_in, 2);
    reveal_with_fuel(time_in, 2);
    assert(seq![rate][0] == rate);
}

/// A row is filed under the whole second in which its window began.
pub proof fn law_rows_go_by_seconds(rows: Seq<RowView>, k: int, i: int, second: u64)
    requires
        0 <= i < k <= rows.len() <= usize::MAX,
    ensures
        list_at(summary_of(rows, k).buckets, second).contains(i as usize) <==> second * 1_000_000_000
            <= rows[i].wall_start_ns < (second + 1) * 1_000_000_000,
{
    law_rows_are_in_their_second(rows, k, i, second);
}

/// What one more row adds to the summary: its totals, at the end; its number to the
/// bucket of its second, at the end; and for each of its peers but itself what it sent
/// there.
pub proof fn law_one_row_more(rows: Seq<RowView>, k: int, second: u64)
    requires
        0 <= k < rows.len() <= usize::MAX,
    ensures
        summary_of(rows, k + 1).totals == summary_of(rows, k).totals.push(
            (rows[k].bytes_sent, rows[k].duration_ns),
        ),
        list_at(summary_of(rows, k + 1).buckets, second) == if second
            == rows[k].wall_start_ns as int / 1_000_000_000 {
            list_at(summary_of(rows, k).buckets, second).push(k as usize)
        } else {
            list_at(summary_of(rows, k).buckets, second)
        },
        summary_of(rows, 0).totals.len() == 0,
{
    lemma_bucket_rows(rows, k, second);
}

/// The last `--db` counts: whatever the arguments before it say, as long as they are
/// nothing else, a path behind `--db`, or behind `--db=` in the same argument, is the
/// one that is taken. `--db` with nothing behind it is an error.
pub proof fn law_last_database_counts(args: Seq<Seq<char>>, path: Seq<char>, db: Option<Seq<char>>)
    requires
        forall|i: int|
            0 <= i < args.len() ==> (#[trigger] args[i]).len() > 5 && args[i].take(5) == seq![
                '-',
                '-',
                'd',
                'b',
                '=',
            ],
    ensures
        args_from(args + seq![seq!['-', '-', 'd', 'b'], path], 0, db) == Ok::<
            Seq<char>,
            ArgsErrorView,
        >(path),
        path.len() > 0 ==> args_from(
            args.push(seq!['-', '-', 'd', 'b', '='] + path),
            0,
            db,
        ) == Ok::<Seq<char>, ArgsErrorView>(path),
        args_from(args.push(seq!['-', '-', 'd', 'b']), 0, db) == Err::<Seq<char>, ArgsErrorView>(
            ArgsErrorOf::NoPath,
        ),
        args_from(args.push(seq!['-', '-', 'd', 'b', '=']), 0, db) == Err::<
            Seq<char>,
            ArgsErrorView,
        >(ArgsErrorOf::NoPath),
        args_from(args.push(seq!['-', 'h']), 0, db) == Err::<Seq<char>, ArgsErrorView>(
            ArgsErrorOf::Help,
        ),
        args_from(Seq::empty(), 0, None) == Err::<Seq<char>, ArgsErrorView>(ArgsErrorOf::Missing),
{
    let flag = seq!['-', '-', 'd', 'b'];
    let prefix = seq!['-', '-', 'd', 'b', '='];
    reveal_strlit("--db");
    reveal_strlit("--db=");
    reveal_strlit("-h");
    assert("--db"@ =~= flag);
    assert("--db="@ =~= prefix);
    assert("-h"@ =~= seq!['-', 'h']);
    let one = prefix + path;
    assert(one.take(5) =~= prefix);
    assert(one.skip(5) =~= path);
    assert(prefix.take(5) =~= prefix);
    let n = args.len() as int;
    lemma_skip_named(args, seq![flag, path], 0, db);
    let a = args + seq![flag, path];
    assert(a[n] == flag && a[n + 1] == path);
    reveal_with_fuel(args_from, 3);
    lemma_skip_named(args, seq![one], 0, db);
    assert(args + seq![one] =~= args.push(one));
    assert(args.push(one)[n] == one);
    lemma_skip_named(args, seq![flag], 0, db);
    assert(args + seq![flag] =~= args.push(flag));
    assert(args.push(flag)[n] == flag);
    lemma_skip_named(args, seq![prefix], 0, db);
    assert(args + seq![prefix] =~= args.push(prefix));
    assert(args.push(prefix)[n] == prefix);
    let h = seq!['-', 'h'];
    lemma_skip_named(args, seq![h], 0, db);
    assert(args + seq![h] =~= args.push(h));
    assert(args.push(h)[n] == h);
    assert(h.len() == 2 && flag.len() == 4);
}

proof fn lemma_skip_named(args: Seq<Seq<char>>, rest: Seq<Seq<char>>, i: int, db: Option<Seq<char>>)
    requires
        0 <= i <= args.len(),
        forall|k: int|
            0 <= k < args.len() ==> (#[trigger] args[k]).len() > 5 && args[k].take(5) == seq![
                '-',
                '-',
                'd',
                'b',
                '=',
            ],
    ensures
        exists|last: Option<Seq<char>>|
            args_from(args + rest, i, db) == #[trigger] args_from(
                args + rest,
                args.len() as int,
                last,
            ),
    decreases args.len() - i,
{
    reveal_strlit("--db");
    reveal_strlit("--db=");
    assert("--db="@ =~= seq!['-', '-', 'd', 'b', '=']);
    if i < args.len() {
        let a = args[i];
        assert((args + rest)[i] == a);
        assert(a.len() > 5);
        lemma_skip_named(args, rest, i + 1, Some(a.skip(5)));
    }
}

/// An argument that is neither `--db` with a path nor a call for help is refused.
pub proof fn law_other_arguments_are_refused(a: Seq<char>, rest: Seq<Seq<char>>)
    requires
        a.len() < 4 || a.take(4) != seq!['-', '-', 'd', 'b'] || a.len() > 4 && a[4] != '=',
        a != seq!['-', 'h'],
        a != seq!['-', '-', 'h', 'e', 'l', 'p'],
    ensures
        args_from(seq![a] + rest, 0, None) == Err::<Seq<char>, ArgsErrorView>(
            ArgsErrorOf::Unexpected(a),
        ),
{
    reveal_strlit("--db");
    reveal_strlit("--db=");
    reveal_strlit("-h");
    reveal_strlit("--help");
    assert("-h"@ =~= seq!['-', 'h']);
    assert("--help"@ =~= seq!['-', '-', 'h', 'e', 'l', 'p']);
    assert("--db"@ =~= seq!['-', '-', 'd', 'b']);
    assert((seq![a] + rest)[0] == a);
    if a == "--db"@ {
        assert(a.take(4) =~= a);
    }
    if has_db_prefix(a) {
        assert(a.take(5)[4] == '=');
        assert(a.take(4) =~= a.take(5).take(4));
        assert("--db="@.take(4) =~= seq!['-', '-', 'd', 'b']);
    }
}

/// A path is taken for a database exactly if it is not empty and leads to a file. What
/// is wrong with it otherwise: it is empty, a directory, nothing, or no file, in this
/// order.
pub proof fn law_database_must_be_a_file(path: Seq<char>, facts: PathFacts)
    ensures
        db_file_error(path, facts) is None <==> path.len() > 0 && !facts.is_dir && facts.exists
            && facts.is_file,
        path.len() == 0 ==> db_file_error(path, facts) == Some(DbFileErrorOf::<Seq<char>>::Empty),
        path.len() > 0 && facts.is_dir ==> db_file_error(path, facts) == Some(
            DbFileErrorOf::Directory(path),
        ),
        path.len() > 0 && !facts.is_dir && !facts.exists ==> db_file_error(path, facts) == Some(
            DbFileErrorOf::NotFound(path),
        ),
{
}

/// What is said of a row is said of its fields.
pub proof fn law_content_of_a_row(r: Row, k: int)
    requires
        0 <= k < r.peers@.len(),
    ensures
        r@.server == r.server@,
        r@.wall_start_ns == r.wall_start_ns,
        r@.duration_ns == r.duration_ns,
        r@.bytes_sent == r.bytes_sent,
        r@.peers.len() == r.peers@.len(),
        r@.peers[k] == r.peers@[k]@,
{
}

/// What is said of a summary is said of its lists: the samples of a pair are those that
/// stand with its two names, and the rows of a second those that stand with it.
pub proof fn law_content_of_a_summary(s: Summary, i: int, j: int)
    requires
        s.wf(),
        0 <= i < s.pairs@.len(),
        0 <= j < s.buckets@.len(),
    ensures
        s@.pairs.dom().contains((s.pairs@[i].src@, s.pairs@[i].dst@)),
        s@.pairs[(s.pairs@[i].src@, s.pairs@[i].dst@)] == s.pairs@[i].samples@,
        s@.buckets.dom().contains(s.buckets@[j].second),
        s@.buckets[s.buckets@[j].second] == s.buckets@[j].rows@,
        s@.totals == s.totals@,
{
    assert(is_at(s.pairs@, (s.pairs@[i].src@, s.pairs@[i].dst@), i));
    lemma_pair_at(s.pairs@, (s.pairs@[i].src@, s.pairs@[i].dst@), i);
    assert(is_second(s.buckets@, s.buckets@[j].second, j));
    lemma_bucket_at(s.buckets@, s.buckets@[j].second, j);
}

} // verus!
