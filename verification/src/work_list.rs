//! The work list: the images of a folder that are to be sorted, in the order of their paths.
use vstd::prelude::*;

use crate::file_names::is_image;
#[allow(unused_imports)]
use crate::file_names::is_image_name;

verus! {

/// A part of a path. Names are held as the bytes of their encoding.
pub enum Part {
    /// The drive or share that a path starts with.
    Prefix(Vec<u8>),
    Root,
    Current,
    Parent,
    Name(Vec<u8>),
}

/// What parts are told apart and ordered by: the kind, in the order of the declaration, and then
/// the bytes.
pub open spec fn part_key(part: Part) -> Seq<u8> {
    match part {
        Part::Prefix(bytes) => seq![0u8] + bytes@,
        Part::Root => seq![1u8],
        Part::Current => seq![2u8],
        Part::Parent => seq![3u8],
        Part::Name(bytes) => seq![4u8] + bytes@,
    }
}

/// What paths are told apart and ordered by.
pub open spec fn path_key(path: Seq<Part>) -> Seq<Seq<u8>> {
    path.map_values(|part: Part| part_key(part))
}

/// Whether `path` is `folder` or lies in it: whole parts count, so `ab` does not lie in `a`.
pub open spec fn lies_in(path: Seq<Part>, folder: Seq<Part>) -> bool {
    path_key(folder).is_prefix_of(path_key(path))
}

/// Whether `a` comes before `b` in the order of words in a dictionary whose letters are ordered
/// by `less`: where they first differ `a` has the lesser letter, or `a` has ended.
pub open spec fn before<A>(a: Seq<A>, b: Seq<A>, less: spec_fn(A, A) -> bool) -> bool {
    exists|i: int| #[trigger] differ_first_at(a, b, less, i)
}

pub open spec fn differ_first_at<A>(
    a: Seq<A>,
    b: Seq<A>,
    less: spec_fn(A, A) -> bool,
    i: int,
) -> bool {
    &&& 0 <= i <= a.len()
    &&& i < b.len()
    &&& forall|j: int| 0 <= j < i ==> #[trigger] a[j] == b[j]
    &&& i < a.len() ==> less(a[i], b[i])
}

pub open spec fn byte_order() -> spec_fn(u8, u8) -> bool {
    |x: u8, y: u8| x < y
}

pub open spec fn part_order() -> spec_fn(Seq<u8>, Seq<u8>) -> bool {
    |x: Seq<u8>, y: Seq<u8>| before(x, y, byte_order())
}

/// Whether the path `a` comes before the path `b`: part by part, and each part byte by byte.
pub open spec fn path_before(a: Seq<Part>, b: Seq<Part>) -> bool {
    before(path_key(a), path_key(b), part_order())
}

/// A strict order in which any two things are equal or one comes before the other.
pub open spec fn is_strict_total<A>(less: spec_fn(A, A) -> bool) -> bool {
    &&& forall|x: A| !(#[trigger] less(x, x))
    &&& forall|x: A, y: A, z: A| #[trigger]
        less(x, y) && #[trigger] less(y, z) ==> less(x, z)
    &&& forall|x: A, y: A| x == y || #[trigger] less(x, y) || less(y, x)
}

proof fn lemma_before_is_total<A>(a: Seq<A>, b: Seq<A>, less: spec_fn(A, A) -> bool, i: int)
    requires
        is_strict_total(less),
        0 <= i <= a.len(),
        i <= b.len(),
        forall|j: int| 0 <= j < i ==> #[trigger] a[j] == b[j],
    ensures
        a == b || before(a, b, less) || before(b, a, less),
    decreases a.len() - i,
{
    if i == a.len() && i == b.len() {
        assert(a =~= b);
    } else if i == a.len() {
        assert(differ_first_at(a, b, less, i));
    } else if i == b.len() {
        assert(differ_first_at(b, a, less, i));
    } else if less(a[i], b[i]) {
        assert(differ_first_at(a, b, less, i));
    } else if less(b[i], a[i]) {
        assert(differ_first_at(b, a, less, i));
    } else {
        lemma_before_is_total(a, b, less, i + 1);
    }
}

/// The dictionary order over a strict total order is one too.
proof fn lemma_before_is_strict_total<A>(less: spec_fn(A, A) -> bool)
    requires
        is_strict_total(less),
    ensures
        is_strict_total(|x: Seq<A>, y: Seq<A>| before(x, y, less)),
{
    let order = |x: Seq<A>, y: Seq<A>| before(x, y, less);
    assert forall|x: Seq<A>| !(#[trigger] order(x, x)) by {
        if before(x, x, less) {
            let i = choose|i: int| #[trigger] differ_first_at(x, x, less, i);
            assert(!less(x[i], x[i]));
        }
    }
    assert forall|x: Seq<A>, y: Seq<A>, z: Seq<A>| #[trigger]
        order(x, y) && #[trigger] order(y, z) implies order(x, z) by {
        let i = choose|i: int| #[trigger] differ_first_at(x, y, less, i);
        let j = choose|j: int| #[trigger] differ_first_at(y, z, less, j);
        if i < j {
            assert(y[i] == z[i]);
            assert(differ_first_at(x, z, less, i));
        } else {
            assert forall|k: int| 0 <= k < j implies #[trigger] x[k] == z[k] by {
                assert(x[k] == y[k]);
            }
            if i == j && i < x.len() {
                assert(less(x[i], y[i]) && less(y[i], z[i]));
            }
            assert(differ_first_at(x, z, less, j));
        }
    }
    assert forall|x: Seq<A>, y: Seq<A>| x == y || #[trigger] order(x, y) || order(y, x) by {
        lemma_before_is_total(x, y, less, 0);
    }
}

/// Paths are strictly and totally ordered by their keys.
proof fn lemma_paths_are_ordered()
    ensures
        is_strict_total(byte_order()),
        is_strict_total(part_order()),
        is_strict_total(
            |x: Seq<Seq<u8>>, y: Seq<Seq<u8>>| before(x, y, part_order()),
        ),
{
    assert(is_strict_total(byte_order()));
    lemma_before_is_strict_total(byte_order());
    assert(part_order() =~= (|x: Seq<u8>, y: Seq<u8>| before(x, y, byte_order())));
    lemma_before_is_strict_total(part_order());
}

/// Something found in the folder.
pub struct Entry {
    pub path: Vec<Part>,
    /// The file name, with a replacement character for what is not text.
    pub name: String,
    pub is_file: bool,
}

pub open spec fn lies_in_any(path: Seq<Part>, folders: Seq<Vec<Part>>) -> bool {
    exists|k: int| 0 <= k < folders.len() && lies_in(path, (#[trigger] folders[k])@)
}

/// Whether an entry is to be sorted: an image file outside the output folders.
pub open spec fn is_work(entry: Entry, output_folders: Seq<Vec<Part>>) -> bool {
    &&& entry.is_file
    &&& is_image_name(entry.name@)
    &&& !lies_in_any(entry.path@, output_folders)
}

/// Whether entry `i` is sorted before entry `j`: by the paths, and by the position where the
/// paths are the same.
pub open spec fn listed_before(entries: Seq<Entry>, i: int, j: int) -> bool {
    ||| path_before(entries[i].path@, entries[j].path@)
    ||| path_key(entries[i].path@) == path_key(entries[j].path@) && i < j
}

/// Whether `list` holds the positions of the first `n` entries that are to be sorted, each once,
/// in order.
pub open spec fn lists_work(
    list: Seq<usize>,
    entries: Seq<Entry>,
    n: int,
    output_folders: Seq<Vec<Part>>,
) -> bool {
    &&& forall|k: int|
        0 <= k < list.len() ==> (#[trigger] list[k]) < n && is_work(
            entries[list[k] as int],
            output_folders,
        )
    &&& forall|i: int|
        0 <= i < n && is_work(#[trigger] entries[i], output_folders) ==> exists|k: int|
            0 <= k < list.len() && #[trigger] list[k] == i
    &&& forall|j: int, k: int|
        0 <= j < k < list.len() ==> listed_before(
            entries,
            #[trigger] list[j] as int,
            #[trigger] list[k] as int,
        )
}

fn key_of_part(part: &Part) -> (out: Vec<u8>)
    ensures
        out@ == part_key(*part),
{
    let (kind, bytes): (u8, Option<&Vec<u8>>) = match part {
        Part::Prefix(bytes) => (0, Some(bytes)),
        Part::Root => (1, None),
        Part::Current => (2, None),
        Part::Parent => (3, None),
        Part::Name(bytes) => (4, Some(bytes)),
    };
    let mut out: Vec<u8> = Vec::new();
    out.push(kind);
    if let Some(bytes) = bytes {
        let mut i: usize = 0;
        while i < bytes.len()
            invariant
                i <= bytes@.len(),
                out@ == seq![kind] + bytes@.take(i as int),
            decreases bytes@.len() - i,
        {
            out.push(bytes[i]);
            i = i + 1;
            assert(bytes@.take(i as int) =~= bytes@.take(i - 1).push(bytes@[i - 1]));
        }
        assert(bytes@.take(i as int) =~= bytes@);
    }
    assert(out@ =~= part_key(*part));
    out
}

spec fn keys_in(keys: Seq<Vec<u8>>) -> Seq<Seq<u8>> {
    keys.map_values(|key: Vec<u8>| key@)
}

fn key_of_path(path: &Vec<Part>) -> (out: Vec<Vec<u8>>)
    ensures
        keys_in(out@) == path_key(path@),
{
    let mut out: Vec<Vec<u8>> = Vec::new();
    let mut i: usize = 0;
    while i < path.len()
        invariant
            i <= path@.len(),
            out@.len() == i,
            forall|j: int| 0 <= j < i ==> (#[trigger] out@[j])@ == part_key(path@[j]),
        decreases path@.len() - i,
    {
        out.push(key_of_part(&path[i]));
        i = i + 1;
    }
    assert(keys_in(out@) =~= path_key(path@));
    out
}

/// Compares two parts: where they first differ, or nothing where they are equal.
fn part_is_before(a: &Vec<u8>, b: &Vec<u8>) -> (out: Option<bool>)
    ensures
        out is None <==> a@ == b@,
        out == Some(true) ==> before(a@, b@, byte_order()),
        out == Some(false) ==> before(b@, a@, byte_order()),
{
    let mut i: usize = 0;
    while i < a.len() && i < b.len()
        invariant
            i <= a@.len(),
            i <= b@.len(),
            forall|j: int| 0 <= j < i ==> #[trigger] a@[j] == b@[j],
        decreases a@.len() - i,
    {
        if a[i] < b[i] {
            assert(differ_first_at(a@, b@, byte_order(), i as int));
            return Some(true);
        }
        if b[i] < a[i] {
            assert(differ_first_at(b@, a@, byte_order(), i as int));
            return Some(false);
        }
        i = i + 1;
    }
    if i < b.len() {
        assert(differ_first_at(a@, b@, byte_order(), i as int));
        Some(true)
    } else if i < a.len() {
        assert(differ_first_at(b@, a@, byte_order(), i as int));
        Some(false)
    } else {
        assert(a@ =~= b@);
        None
    }
}

fn key_is_before(a: &Vec<Vec<u8>>, b: &Vec<Vec<u8>>) -> (out: Option<bool>)
    ensures
        out is None <==> keys_in(a@) == keys_in(b@),
        out == Some(true) ==> before(keys_in(a@), keys_in(b@), part_order()),
        out == Some(false) ==> before(keys_in(b@), keys_in(a@), part_order()),
{
    let ghost ka = keys_in(a@);
    let ghost kb = keys_in(b@);
    let mut i: usize = 0;
    while i < a.len() && i < b.len()
        invariant
            ka == keys_in(a@),
            kb == keys_in(b@),
            i <= a@.len(),
            i <= b@.len(),
            forall|j: int| 0 <= j < i ==> #[trigger] ka[j] == kb[j],
        decreases a@.len() - i,
    {
        match part_is_before(&a[i], &b[i]) {
            Some(true) => {
                assert(differ_first_at(ka, kb, part_order(), i as int));
                return Some(true);
            },
            Some(false) => {
                assert(differ_first_at(kb, ka, part_order(), i as int));
                return Some(false);
            },
            None => {
                assert(ka[i as int] == kb[i as int]);
            },
        }
        i = i + 1;
    }
    if i < b.len() {
        assert(differ_first_at(ka, kb, part_order(), i as int));
        Some(true)
    } else if i < a.len() {
        assert(differ_first_at(kb, ka, part_order(), i as int));
        Some(false)
    } else {
        assert(ka =~= kb);
        None
    }
}

fn key_lies_in(path: &Vec<Vec<u8>>, folder: &Vec<Vec<u8>>) -> (out: bool)
    ensures
        out == keys_in(folder@).is_prefix_of(keys_in(path@)),
{
    if folder.len() > path.len() {
        return false;
    }
    let ghost kp = keys_in(path@);
    let ghost kf = keys_in(folder@);
    let mut i: usize = 0;
    while i < folder.len()
        invariant
            kp == keys_in(path@),
            kf == keys_in(folder@),
            i <= folder@.len() <= path@.len(),
            forall|j: int| 0 <= j < i ==> #[trigger] kf[j] == kp[j],
        decreases folder@.len() - i,
    {
        if part_is_before(&folder[i], &path[i]).is_some() {
            assert(kf[i as int] != kp[i as int]);
            assert(kp.subrange(0, kf.len() as int)[i as int] == kp[i as int]);
            return false;
        }
        assert(kf[i as int] == kp[i as int]);
        i = i + 1;
    }
    assert(kf =~= kp.subrange(0, kf.len() as int));
    true
}

/// Tells whether two paths are the same.
pub fn same_path(a: &Vec<Part>, b: &Vec<Part>) -> (out: bool)
    ensures
        out == (path_key(a@) == path_key(b@)),
{
    key_is_before(&key_of_path(a), &key_of_path(b)).is_none()
}

fn keys_of(paths: &Vec<Vec<Part>>) -> (out: Vec<Vec<Vec<u8>>>)
    ensures
        out@.len() == paths@.len(),
        forall|k: int|
            0 <= k < out@.len() ==> keys_in((#[trigger] out@[k])@) == path_key(paths@[k]@),
{
    let mut out: Vec<Vec<Vec<u8>>> = Vec::new();
    let mut i: usize = 0;
    while i < paths.len()
        invariant
            i <= paths@.len(),
            out@.len() == i,
            forall|k: int| 0 <= k < i ==> keys_in((#[trigger] out@[k])@) == path_key(paths@[k]@),
        decreases paths@.len() - i,
    {
        out.push(key_of_path(&paths[i]));
        i = i + 1;
    }
    out
}

fn key_lies_in_any(key: &Vec<Vec<u8>>, folders: &Vec<Vec<Vec<u8>>>) -> (out: bool)
    ensures
        out == exists|k: int|
            0 <= k < folders@.len() && keys_in((#[trigger] folders@[k])@).is_prefix_of(
                keys_in(key@),
            ),
{
    let mut k: usize = 0;
    while k < folders.len()
        invariant
            k <= folders@.len(),
            forall|j: int|
                0 <= j < k ==> !keys_in((#[trigger] folders@[j])@).is_prefix_of(keys_in(key@)),
        decreases folders@.len() - k,
    {
        if key_lies_in(key, &folders[k]) {
            return true;
        }
        k = k + 1;
    }
    false
}

/// Finds where entry `n` belongs in the list of those before it: behind all whose paths do not
/// come after its own.
fn place_in(
    list: &Vec<usize>,
    keys: &Vec<Vec<Vec<u8>>>,
    n: usize,
    Ghost(entries): Ghost<Seq<Entry>>,
) -> (at: usize)
    requires
        n < keys@.len() <= entries.len(),
        forall|i: int|
            0 <= i < keys@.len() ==> keys_in((#[trigger] keys@[i])@) == path_key(entries[i].path@),
        forall|k: int| 0 <= k < list@.len() ==> (#[trigger] list@[k]) < n,
        forall|j: int, k: int|
            0 <= j < k < list@.len() ==> listed_before(
                entries,
                #[trigger] list@[j] as int,
                #[trigger] list@[k] as int,
            ),
    ensures
        at <= list@.len(),
        forall|k: int| 0 <= k < at ==> listed_before(entries, #[trigger] list@[k] as int, n as int),
        forall|k: int|
            at <= k < list@.len() ==> listed_before(entries, n as int, #[trigger] list@[k] as int),
{
    let mut low: usize = 0;
    let mut high: usize = list.len();
    while low < high
        invariant
            low <= high <= list@.len(),
            n < keys@.len() <= entries.len(),
            forall|i: int|
                0 <= i < keys@.len() ==> keys_in((#[trigger] keys@[i])@) == path_key(
                    entries[i].path@,
                ),
            forall|k: int| 0 <= k < list@.len() ==> (#[trigger] list@[k]) < n,
            forall|j: int, k: int|
                0 <= j < k < list@.len() ==> listed_before(
                    entries,
                    #[trigger] list@[j] as int,
                    #[trigger] list@[k] as int,
                ),
            forall|k: int|
                0 <= k < low ==> listed_before(entries, #[trigger] list@[k] as int, n as int),
            forall|k: int|
                high <= k < list@.len() ==> listed_before(
                    entries,
                    n as int,
                    #[trigger] list@[k] as int,
                ),
        decreases high - low,
    {
        let middle: usize = low + (high - low) / 2;
        let other: usize = list[middle];
        let ghost m = other as int;
        assert(keys_in(keys@[n as int]@) == path_key(entries[n as int].path@));
        assert(keys_in(keys@[m]@) == path_key(entries[m].path@));
        match key_is_before(&keys[n], &keys[other]) {
            Some(true) => {
                assert(listed_before(entries, n as int, m));
                assert forall|k: int| middle <= k < list@.len() implies listed_before(
                    entries,
                    n as int,
                    #[trigger] list@[k] as int,
                ) by {
                    if k > middle {
                        assert(listed_before(entries, m, list@[k] as int));
                        lemma_listing_is_transitive(entries, n as int, m, list@[k] as int);
                    }
                }
                high = middle;
            },
            _ => {
                assert(listed_before(entries, m, n as int));
                assert forall|k: int| 0 <= k <= middle implies listed_before(
                    entries,
                    #[trigger] list@[k] as int,
                    n as int,
                ) by {
                    if k < middle {
                        assert(listed_before(entries, list@[k] as int, m));
                        lemma_listing_is_transitive(entries, list@[k] as int, m, n as int);
                    }
                }
                low = middle + 1;
            },
        }
    }
    low
}

proof fn lemma_listing_is_transitive(entries: Seq<Entry>, i: int, j: int, k: int)
    requires
        listed_before(entries, i, j),
        listed_before(entries, j, k),
    ensures
        listed_before(entries, i, k),
{
    lemma_paths_are_ordered();
    let order = |x: Seq<Seq<u8>>, y: Seq<Seq<u8>>| before(x, y, part_order());
    let a = path_key(entries[i].path@);
    let b = path_key(entries[j].path@);
    let c = path_key(entries[k].path@);
    assert(order(a, b) == before(a, b, part_order()));
    assert(order(b, c) == before(b, c, part_order()));
    assert(order(a, c) == before(a, c, part_order()));
}

proof fn lemma_inserted(
    list: Seq<usize>,
    entries: Seq<Entry>,
    n: usize,
    output_folders: Seq<Vec<Part>>,
    at: int,
)
    requires
        lists_work(list, entries, n as int, output_folders),
        n < entries.len(),
        is_work(entries[n as int], output_folders),
        0 <= at <= list.len(),
        forall|k: int| 0 <= k < at ==> listed_before(entries, #[trigger] list[k] as int, n as int),
        forall|k: int|
            at <= k < list.len() ==> listed_before(entries, n as int, #[trigger] list[k] as int),
    ensures
        lists_work(list.insert(at, n), entries, n + 1, output_folders),
{
    let longer = list.insert(at, n);
    assert forall|i: int|
        0 <= i < n + 1 && is_work(#[trigger] entries[i], output_folders) implies exists|k: int|
        0 <= k < longer.len() && #[trigger] longer[k] == i by {
        if i == n {
            assert(longer[at] == i);
        } else {
            let k = choose|k: int| 0 <= k < list.len() && #[trigger] list[k] == i;
            if k < at {
                assert(longer[k] == i);
            } else {
                assert(longer[k + 1] == i);
            }
        }
    }
    assert forall|k: int| 0 <= k < longer.len() implies (#[trigger] longer[k]) < n + 1 && is_work(
        entries[longer[k] as int],
        output_folders,
    ) by {
        if k < at {
            assert(longer[k] == list[k]);
        } else if k > at {
            assert(longer[k] == list[k - 1]);
        }
    }
    assert forall|j: int, k: int| 0 <= j < k < longer.len() implies listed_before(
        entries,
        #[trigger] longer[j] as int,
        #[trigger] longer[k] as int,
    ) by {
        if j < at {
            assert(longer[j] == list[j]);
        } else if j > at {
            assert(longer[j] == list[j - 1]);
        }
        if k < at {
            assert(longer[k] == list[k]);
        } else if k > at {
            assert(longer[k] == list[k - 1]);
        }
    }
}

/// Lists the entries to be sorted, by their positions: every image file outside the output
/// folders, in the order of the paths.
pub fn work_list(entries: &Vec<Entry>, output_folders: &Vec<Vec<Part>>) -> (list: Vec<usize>)
    ensures
        lists_work(list@, entries@, entries@.len() as int, output_folders@),
{
    let folders: Vec<Vec<Vec<u8>>> = keys_of(output_folders);
    let mut keys: Vec<Vec<Vec<u8>>> = Vec::new();
    let mut list: Vec<usize> = Vec::new();
    let mut n: usize = 0;
    while n < entries.len()
        invariant
            n <= entries@.len(),
            keys@.len() == n,
            forall|i: int|
                0 <= i < n ==> keys_in((#[trigger] keys@[i])@) == path_key(entries@[i].path@),
            folders@.len() == output_folders@.len(),
            forall|k: int|
                0 <= k < folders@.len() ==> keys_in((#[trigger] folders@[k])@) == path_key(
                    output_folders@[k]@,
                ),
            lists_work(list@, entries@, n as int, output_folders@),
        decreases entries@.len() - n,
    {
        let entry: &Entry = &entries[n];
        keys.push(key_of_path(&entry.path));
        let ghost old_list = list@;
        if entry.is_file && is_image(entry.name.as_str()) && !key_lies_in_any(&keys[n], &folders) {
            proof {
                if lies_in_any(entry.path@, output_folders@) {
                    let k = choose|k: int|
                        0 <= k < output_folders@.len() && lies_in(
                            entry.path@,
                            (#[trigger] output_folders@[k])@,
                        );
                    assert(keys_in(folders@[k]@).is_prefix_of(keys_in(keys@[n as int]@)));
                }
            }
            let at: usize = place_in(&list, &keys, n, Ghost(entries@));
            list.insert(at, n);
            proof {
                lemma_inserted(old_list, entries@, n, output_folders@, at as int);
            }
        } else {
            proof {
                if is_work(*entry, output_folders@) {
                    let k = choose|k: int|
                        0 <= k < folders@.len() && keys_in(
                            (#[trigger] folders@[k])@,
                        ).is_prefix_of(keys_in(keys@[n as int]@));
                    assert(lies_in(entry.path@, output_folders@[k]@));
                }
            }
        }
        n = n + 1;
    }
    list
}

/// The work list is the only one of its kind: the entries and the output folders determine it.
pub proof fn work_list_is_unique(
    a: Seq<usize>,
    b: Seq<usize>,
    entries: Seq<Entry>,
    output_folders: Seq<Vec<Part>>,
)
    requires
        lists_work(a, entries, entries.len() as int, output_folders),
        lists_work(b, entries, entries.len() as int, output_folders),
    ensures
        a == b,
{
    assert(a.take(0) =~= b.take(0));
    lemma_lists_agree(a, b, entries, output_folders, 0);
}

proof fn lemma_listing_is_strict(entries: Seq<Entry>, i: int, j: int)
    ensures
        !(listed_before(entries, i, j) && listed_before(entries, j, i)),
{
    if listed_before(entries, i, j) && listed_before(entries, j, i) {
        lemma_listing_is_transitive(entries, i, j, i);
        lemma_paths_are_ordered();
        let order = |x: Seq<Seq<u8>>, y: Seq<Seq<u8>>| before(x, y, part_order());
        let a = path_key(entries[i].path@);
        assert(!order(a, a));
        assert(order(a, a) == before(a, a, part_order()));
    }
}

proof fn lemma_lists_agree(
    a: Seq<usize>,
    b: Seq<usize>,
    entries: Seq<Entry>,
    output_folders: Seq<Vec<Part>>,
    n: int,
)
    requires
        lists_work(a, entries, entries.len() as int, output_folders),
        lists_work(b, entries, entries.len() as int, output_folders),
        0 <= n <= a.len(),
        n <= b.len(),
        a.take(n) == b.take(n),
    ensures
        a == b,
    decreases a.len() - n,
{
    if n == a.len() && n == b.len() {
        assert(a =~= a.take(n));
        assert(b =~= b.take(n));
    } else if n == a.len() {
        lemma_all_listed(b, a, entries, output_folders, n);
    } else if n == b.len() {
        lemma_all_listed(a, b, entries, output_folders, n);
    } else {
        let i = a[n] as int;
        let j = b[n] as int;
        if i != j {
            lemma_all_listed(a, b, entries, output_folders, n);
            lemma_all_listed(b, a, entries, output_folders, n);
            let k = choose|k: int| n <= k < b.len() && b[k] == a[n];
            let l = choose|l: int| n <= l < a.len() && a[l] == b[n];
            assert(listed_before(entries, b[n] as int, b[k] as int));
            assert(listed_before(entries, a[n] as int, a[l] as int));
            lemma_listing_is_strict(entries, i, j);
        }
        assert(a.take(n + 1) =~= a.take(n).push(a[n]));
        assert(b.take(n + 1) =~= b.take(n).push(b[n]));
        lemma_lists_agree(a, b, entries, output_folders, n + 1);
    }
}

/// What stands in one list behind a common start stands in the other behind it too.
proof fn lemma_all_listed(
    a: Seq<usize>,
    b: Seq<usize>,
    entries: Seq<Entry>,
    output_folders: Seq<Vec<Part>>,
    n: int,
)
    requires
        lists_work(a, entries, entries.len() as int, output_folders),
        lists_work(b, entries, entries.len() as int, output_folders),
        0 <= n < a.len(),
        n <= b.len(),
        a.take(n) == b.take(n),
    ensures
        exists|k: int| n <= k < b.len() && b[k] == a[n],
{
    let i = a[n] as int;
    assert(is_work(entries[i], output_folders));
    let k = choose|k: int| 0 <= k < b.len() && #[trigger] b[k] == i;
    if k < n {
        assert(a.take(n)[k] == a[k]);
        assert(b.take(n)[k] == b[k]);
        assert(listed_before(entries, a[k] as int, a[n] as int));
        lemma_listing_is_strict(entries, i, i);
    }
    assert(n <= k < b.len() && b[k] == a[n]);
}

/// A file in an output folder is never sorted again.
pub proof fn sorted_files_are_skipped(
    entry: Entry,
    output_folders: Seq<Vec<Part>>,
    folder: int,
    rest: Seq<Part>,
)
    requires
        0 <= folder < output_folders.len(),
        entry.path@ == output_folders[folder]@ + rest,
    ensures
        !is_work(entry, output_folders),
{
    let whole = path_key(entry.path@);
    let start = path_key(output_folders[folder]@);
    assert(start =~= whole.subrange(0, start.len() as int));
    assert(lies_in(entry.path@, output_folders[folder]@));
}

/// Two parts of a path are the same where they are of the same kind and hold the same bytes.
pub proof fn parts_are_told_apart(a: Part, b: Part)
    ensures
        part_key(a) == part_key(b) <==> match (a, b) {
            (Part::Prefix(x), Part::Prefix(y)) => x@ == y@,
            (Part::Root, Part::Root) => true,
            (Part::Current, Part::Current) => true,
            (Part::Parent, Part::Parent) => true,
            (Part::Name(x), Part::Name(y)) => x@ == y@,
            _ => false,
        },
{
    let ka = part_key(a);
    let kb = part_key(b);
    assert(ka.len() > 0 && kb.len() > 0);
    assert(ka[0] != kb[0] ==> ka != kb);
    match (a, b) {
        (Part::Prefix(x), Part::Prefix(y)) => {
            assert(ka.skip(1) =~= x@);
            assert(kb.skip(1) =~= y@);
        },
        (Part::Name(x), Part::Name(y)) => {
            assert(ka.skip(1) =~= x@);
            assert(kb.skip(1) =~= y@);
        },
        _ => {},
    }
}

/// A path lies in a folder where it starts with all parts of the folder, one by one, and two
/// paths are the same where each lies in the other.
pub proof fn paths_lie_in_what_they_start_with(path: Seq<Part>, folder: Seq<Part>)
    ensures
        lies_in(path, folder) <==> {
            &&& folder.len() <= path.len()
            &&& forall|k: int|
                0 <= k < folder.len() ==> part_key(#[trigger] folder[k]) == part_key(path[k])
        },
        path_key(path) == path_key(folder) <==> {
            &&& folder.len() == path.len()
            &&& forall|k: int|
                0 <= k < folder.len() ==> part_key(#[trigger] folder[k]) == part_key(path[k])
        },
{
    let kp = path_key(path);
    let kf = path_key(folder);
    assert(forall|k: int| 0 <= k < folder.len() ==> kf[k] == part_key(#[trigger] folder[k]));
    assert(forall|k: int| 0 <= k < path.len() ==> kp[k] == part_key(#[trigger] path[k]));
    if lies_in(path, folder) {
        assert forall|k: int| 0 <= k < folder.len() implies part_key(#[trigger] folder[k])
            == part_key(path[k]) by {
            assert(kp.subrange(0, kf.len() as int)[k] == kp[k]);
        }
    }
    if folder.len() <= path.len() && (forall|k: int|
        0 <= k < folder.len() ==> part_key(#[trigger] folder[k]) == part_key(path[k])) {
        assert(kf =~= kp.subrange(0, kf.len() as int)) by {
            assert forall|k: int| 0 <= k < kf.len() implies kf[k] == kp[k] by {
                assert(part_key(folder[k]) == part_key(path[k]));
            }
        }
        if folder.len() == path.len() {
            assert(kp =~= kp.subrange(0, kf.len() as int));
        }
    }
    if kp == kf {
        assert(kp.len() == path.len() && kf.len() == folder.len());
        assert forall|k: int| 0 <= k < folder.len() implies part_key(#[trigger] folder[k])
            == part_key(path[k]) by {
            assert(kf[k] == kp[k]);
        }
    }
}

/// A strict order has no two paths that each come before the other.
proof fn lemma_one_way(a: Seq<Part>, b: Seq<Part>)
    requires
        path_before(a, b),
    ensures
        !path_before(b, a),
{
    lemma_paths_are_ordered();
    let order = |x: Seq<Seq<u8>>, y: Seq<Seq<u8>>| before(x, y, part_order());
    let ka = path_key(a);
    let kb = path_key(b);
    assert(order(ka, kb) == before(ka, kb, part_order()));
    assert(order(kb, ka) == before(kb, ka, part_order()));
    assert(!order(ka, ka));
}

/// A folder comes before everything in it, and no path comes before itself.
pub proof fn folders_come_before_what_they_hold(
    folder: Seq<Part>,
    part: Part,
    rest: Seq<Part>,
)
    ensures
        path_before(folder, folder.push(part) + rest),
        !path_before(folder.push(part) + rest, folder),
        !path_before(folder, folder),
{
    let longer = folder.push(part) + rest;
    assert(differ_first_at(
        path_key(folder),
        path_key(longer),
        part_order(),
        folder.len() as int,
    ));
    lemma_one_way(folder, longer);
    if path_before(folder, folder) {
        lemma_one_way(folder, folder);
    }
}

proof fn lemma_parts_decide(
    start: Seq<Part>,
    a: Part,
    b: Part,
    rest_a: Seq<Part>,
    rest_b: Seq<Part>,
    i: int,
)
    requires
        differ_first_at(part_key(a), part_key(b), byte_order(), i),
    ensures
        path_before(start.push(a) + rest_a, start.push(b) + rest_b),
        !path_before(start.push(b) + rest_b, start.push(a) + rest_a),
{
    let x = start.push(a) + rest_a;
    let y = start.push(b) + rest_b;
    let kx = path_key(x);
    let ky = path_key(y);
    let at = start.len() as int;
    assert(kx[at] == part_key(a));
    assert(ky[at] == part_key(b));
    assert(before(part_key(a), part_key(b), byte_order()));
    assert forall|j: int| 0 <= j < at implies #[trigger] kx[j] == ky[j] by {
        assert(x[j] == start[j] && y[j] == start[j]);
    }
    assert(part_order()(kx[at], ky[at]));
    assert(differ_first_at(kx, ky, part_order(), at));
    lemma_one_way(x, y);
}

/// Paths are ordered by the first part in which they differ. Names are ordered by the first byte
/// in which they differ, and one that another starts with comes before it; what follows does not
/// matter.
pub proof fn paths_are_ordered_by_their_first_difference(
    start: Seq<Part>,
    a: Vec<u8>,
    b: Vec<u8>,
    i: int,
    rest_a: Seq<Part>,
    rest_b: Seq<Part>,
)
    requires
        0 <= i <= a@.len(),
        i < b@.len(),
        a@.take(i) == b@.take(i),
        i < a@.len() ==> a@[i] < b@[i],
    ensures
        path_before(start.push(Part::Name(a)) + rest_a, start.push(Part::Name(b)) + rest_b),
        !path_before(start.push(Part::Name(b)) + rest_b, start.push(Part::Name(a)) + rest_a),
        path_before(start.push(Part::Prefix(a)) + rest_a, start.push(Part::Prefix(b)) + rest_b),
        !path_before(start.push(Part::Prefix(b)) + rest_b, start.push(Part::Prefix(a)) + rest_a),
{
    assert forall|j: int| 0 <= j < i implies #[trigger] a@[j] == b@[j] by {
        assert(a@.take(i)[j] == a@[j]);
        assert(b@.take(i)[j] == b@[j]);
    }
    let na = part_key(Part::Name(a));
    let nb = part_key(Part::Name(b));
    assert forall|j: int| 0 <= j < i + 1 implies #[trigger] na[j] == nb[j] by {
        assert(j > 0 ==> na[j] == a@[j - 1] && nb[j] == b@[j - 1]);
    }
    assert(differ_first_at(na, nb, byte_order(), i + 1));
    lemma_parts_decide(start, Part::Name(a), Part::Name(b), rest_a, rest_b, i + 1);
    let pa = part_key(Part::Prefix(a));
    let pb = part_key(Part::Prefix(b));
    assert forall|j: int| 0 <= j < i + 1 implies #[trigger] pa[j] == pb[j] by {
        assert(j > 0 ==> pa[j] == a@[j - 1] && pb[j] == b@[j - 1]);
    }
    assert(differ_first_at(pa, pb, byte_order(), i + 1));
    lemma_parts_decide(start, Part::Prefix(a), Part::Prefix(b), rest_a, rest_b, i + 1);
}

/// The kinds of parts are ordered: first a drive or share, then the root, the current folder, the
/// parent folder and names.
pub proof fn parts_of_different_kinds_are_ordered(
    start: Seq<Part>,
    drive: Vec<u8>,
    name: Vec<u8>,
    rest_a: Seq<Part>,
    rest_b: Seq<Part>,
)
    ensures
        path_before(start.push(Part::Prefix(drive)) + rest_a, start.push(Part::Root) + rest_b),
        path_before(start.push(Part::Root) + rest_a, start.push(Part::Current) + rest_b),
        path_before(start.push(Part::Current) + rest_a, start.push(Part::Parent) + rest_b),
        path_before(start.push(Part::Parent) + rest_a, start.push(Part::Name(name)) + rest_b),
{
    let drive_part = Part::Prefix(drive);
    let name_part = Part::Name(name);
    assert(part_key(drive_part)[0] == 0 && part_key(name_part)[0] == 4);
    assert(differ_first_at(part_key(drive_part), part_key(Part::Root), byte_order(), 0));
    assert(differ_first_at(part_key(Part::Root), part_key(Part::Current), byte_order(), 0));
    assert(differ_first_at(part_key(Part::Current), part_key(Part::Parent), byte_order(), 0));
    assert(differ_first_at(part_key(Part::Parent), part_key(name_part), byte_order(), 0));
    lemma_parts_decide(start, drive_part, Part::Root, rest_a, rest_b, 0);
    lemma_parts_decide(start, Part::Root, Part::Current, rest_a, rest_b, 0);
    lemma_parts_decide(start, Part::Current, Part::Parent, rest_a, rest_b, 0);
    lemma_parts_decide(start, Part::Parent, name_part, rest_a, rest_b, 0);
}

/// The order of paths is transitive, and of two different paths one comes before the other.
pub proof fn paths_are_totally_ordered(a: Seq<Part>, b: Seq<Part>, c: Seq<Part>)
    ensures
        path_before(a, b) && path_before(b, c) ==> path_before(a, c),
        path_before(a, b) || path_before(b, a) || path_key(a) == path_key(b),
{
    lemma_paths_are_ordered();
    let order = |x: Seq<Seq<u8>>, y: Seq<Seq<u8>>| before(x, y, part_order());
    let ka = path_key(a);
    let kb = path_key(b);
    let kc = path_key(c);
    assert(order(ka, kb) == before(ka, kb, part_order()));
    assert(order(kb, ka) == before(kb, ka, part_order()));
    assert(order(kb, kc) == before(kb, kc, part_order()));
    assert(order(ka, kc) == before(ka, kc, part_order()));
}

/// A work list holds just the image files that lie in no output folder, each once. They stand in
/// the order of their paths, and entries with the same path in the order in which they came.
pub proof fn every_image_is_listed_once(
    list: Seq<usize>,
    entries: Seq<Entry>,
    output_folders: Seq<Vec<Part>>,
)
    requires
        lists_work(list, entries, entries.len() as int, output_folders),
        entries.len() <= usize::MAX,
    ensures
        list.no_duplicates(),
        forall|k: int| 0 <= k < list.len() ==> (#[trigger] list[k]) < entries.len(),
        forall|i: int|
            0 <= i < entries.len() ==> list.contains(i as usize) == {
                &&& (#[trigger] entries[i]).is_file
                &&& is_image_name(entries[i].name@)
                &&& forall|f: int|
                    0 <= f < output_folders.len() ==> !lies_in(
                        entries[i].path@,
                        (#[trigger] output_folders[f])@,
                    )
            },
        forall|j: int, k: int|
            0 <= j < k < list.len() ==> {
                let a = entries[#[trigger] list[j] as int].path@;
                let b = entries[#[trigger] list[k] as int].path@;
                path_before(a, b) || path_key(a) == path_key(b) && list[j] < list[k]
            },
{
    assert forall|j: int, k: int| 0 <= j < k < list.len() implies #[trigger] list[j]
        != #[trigger] list[k] by {
        lemma_listing_is_strict(entries, list[j] as int, list[k] as int);
    }
    assert forall|i: int| 0 <= i < entries.len() implies list.contains(i as usize) == is_work(
        #[trigger] entries[i],
        output_folders,
    ) by {
        if list.contains(i as usize) {
            let k = choose|k: int| 0 <= k < list.len() && list[k] == i as usize;
            assert(list[k] == i as usize);
        }
        if is_work(entries[i], output_folders) {
            let k = choose|k: int| 0 <= k < list.len() && #[trigger] list[k] == i;
            assert(list[k] == i as usize);
        }
    }
}

} // verus!
