use vstd::prelude::*;

verus! {

/// Options for replaying materialized piles through a viewer.
pub struct OpenOptions {
    /// Program to open the pile folders with; the platform's opener when
    /// absent.
    pub opener: Option<String>,
    /// Skip piles that hold only a single image.
    pub skip_singles: bool,
}

/// One entry of the destination root, as the caller read it from disk:
/// its name, whether it is a directory, and how many files it holds.
pub struct PileEntry {
    pub name: String,
    pub is_dir: bool,
    pub file_count: usize,
}

/// A replay of materialized piles: the destination root, an optional pile
/// to start at, and the options.
pub struct Open {
    pub path: String,
    pub start_at: Option<String>,
    pub options: OpenOptions,
}

/// The start pile named by the replay was not found.
#[derive(Debug)]
pub struct OpenError {
    /// The name that no entry carried.
    pub start_at: String,
}

/// Whether a replay shows this entry: only directories, and only piles
/// with more than one image when singles are skipped.
pub open spec fn entry_shown(e: PileEntry, skip_singles: bool) -> bool {
    e.is_dir && (!skip_singles || e.file_count > 1)
}

/// The first entry from `k` on that carries this name.
pub open spec fn first_named(entries: Seq<PileEntry>, name: Seq<char>, k: int) -> Option<int>
    decreases entries.len() - k,
{
    if k >= entries.len() {
        Option::None
    } else if entries[k].name@ == name {
        Option::Some(k)
    } else {
        first_named(entries, name, k + 1)
    }
}

/// The entries shown from position `k` on: the directories, without the
/// single-image piles when those are skipped.
pub open spec fn shown_from(entries: Seq<PileEntry>, skip: bool, k: int) -> Seq<int>
    decreases entries.len() - k,
{
    if k >= entries.len() {
        Seq::empty()
    } else {
        (if entry_shown(entries[k], skip) {
            seq![k]
        } else {
            Seq::empty()
        }) + shown_from(entries, skip, k + 1)
    }
}

/// The position the replay starts at: the named entry, or the first one.
pub open spec fn start_position(entries: Seq<PileEntry>, start_at: Option<String>) -> Option<
    int,
> {
    match start_at {
        Option::Some(name) => first_named(entries, name@, 0),
        Option::None => Option::Some(0),
    }
}

impl Open {
    /// A replay over the whole destination, first pile on.
    pub fn new(path: String, options: OpenOptions) -> (r: Open)
        ensures
            r.path@ == path@,
            r.start_at is None,
            r.options == options,
    {
        Open { path, start_at: None, options }
    }

    /// Which entries the replay shows, in order: every entry from the
    /// start position on that is a directory and, when singles are
    /// skipped, holds more than one file. Fails when the named start pile
    /// is not among the entries.
    pub fn selection(&self, entries: &Vec<PileEntry>) -> (r: Result<Vec<usize>, OpenError>)
        ensures
            r is Ok ==> start_position(entries@, self.start_at) is Some,
            r matches Ok(sel) ==> sel@.map_values(|x: usize| x as int) == shown_from(
                entries@,
                self.options.skip_singles,
                start_position(entries@, self.start_at)->0,
            ),
            r matches Err(e) ==> start_position(entries@, self.start_at) is None && (
            self.start_at matches Some(name) && e.start_at@ == name@),
    {
        let n = entries.len();
        let start: usize = match &self.start_at {
            Some(name) => {
                let mut k: usize = 0;
                loop
                    invariant
                        k <= n,
                        n == entries@.len(),
                        self.start_at matches Some(sn) && sn@ == name@,
                        first_named(entries@, name@, 0) == first_named(entries@, name@, k as int),
                    ensures
                        k < n && first_named(entries@, name@, 0) == Option::Some(k as int) || (k
                            == n && first_named(entries@, name@, 0) is None),
                    decreases n - k,
                {
                    if k == n {
                        break ;
                    }
                    if entries[k].name.eq(name) {
                        break ;
                    }
                    k = k + 1;
                }
                if k == n {
                    return Err(OpenError { start_at: name.clone() });
                }
                assert(start_position(entries@, self.start_at) == Option::Some(k as int));
                k
            },
            None => 0,
        };
        assert(start_position(entries@, self.start_at) == Option::Some(start as int));
        let skip = self.options.skip_singles;
        let mut sel: Vec<usize> = Vec::new();
        let mut k: usize = start;
        proof {
            assert(sel@.map_values(|x: usize| x as int) =~= Seq::<int>::empty());
        }
        while k < n
            invariant
                start <= k <= n,
                n == entries@.len(),
                skip == self.options.skip_singles,
                sel@.map_values(|x: usize| x as int) + shown_from(entries@, skip, k as int)
                    =~= shown_from(entries@, skip, start as int),
            decreases n - k,
        {
            let ghost old_map = sel@.map_values(|x: usize| x as int);
            let e = &entries[k];
            if e.is_dir && (!skip || e.file_count > 1) {
                sel.push(k);
                proof {
                    assert(sel@.map_values(|x: usize| x as int) =~= old_map.push(k as int));
                    assert(shown_from(entries@, skip, k as int) =~= seq![k as int] + shown_from(
                        entries@,
                        skip,
                        k as int + 1,
                    ));
                    assert(sel@.map_values(|x: usize| x as int) + shown_from(
                        entries@,
                        skip,
                        k as int + 1,
                    ) =~= old_map + shown_from(entries@, skip, k as int));
                }
            } else {
                proof {
                    assert(shown_from(entries@, skip, k as int) =~= shown_from(
                        entries@,
                        skip,
                        k as int + 1,
                    ));
                }
            }
            k = k + 1;
        }
        proof {
            assert(shown_from(entries@, skip, n as int) =~= Seq::<int>::empty());
            assert(sel@.map_values(|x: usize| x as int) =~= shown_from(
                entries@,
                skip,
                start as int,
            ));
        }
        Ok(sel)
    }
}

} // verus!
