//! Rendering an instance and a solution as city ids, and naming the files
//! a run writes.

use vstd::prelude::*;

use crate::text::{
    comma_joined, digits_of, push_char, push_i32, push_zero_padded, signed_digits, zero_padded,
};

verus! {

/// Message for a city index past the end of the list of cities.
pub open spec fn city_index_error(index: usize) -> Seq<char> {
    "city index "@ + digits_of(index as nat) + " out of range"@
}

/// Message for a solution position past the end of the instance.
pub open spec fn position_error(position: usize) -> Seq<char> {
    "solution position "@ + digits_of(position as nat) + " out of range"@
}

/// The id, as text, of the city at `index` in `city_ids`.
pub open spec fn id_label(city_ids: Seq<i32>, index: int) -> Seq<char> {
    signed_digits(city_ids[index] as int)
}

/// A solution position names a city: it falls within the instance, and
/// the instance entry there falls within the list of cities.
pub open spec fn position_resolves(city_ids: Seq<i32>, instance: Seq<usize>, position: usize) -> bool {
    position < instance.len() && instance[position as int] < city_ids.len()
}

/// Message for the first thing wrong with a solution position.
pub open spec fn position_failure(
    city_ids: Seq<i32>,
    instance: Seq<usize>,
    position: usize,
) -> Seq<char> {
    if position >= instance.len() {
        position_error(position)
    } else {
        city_index_error(instance[position as int])
    }
}

/// A local date and time, as the fields that a file name shows of it.
#[derive(Clone, Copy, Debug, PartialEq, Eq)]
pub struct Timestamp {
    pub year: i32,
    pub month: u32,
    pub day: u32,
    pub hour: u32,
    pub minute: u32,
    pub second: u32,
    /// Milliseconds past the second.
    pub millis: u32,
}

/// The year as `%Y` writes it: four digits, zero-padded, for the years
/// `0..=9999`; otherwise a sign and at least four digits.
pub open spec fn year_text(year: i32) -> Seq<char> {
    if 0 <= year <= 9999 {
        zero_padded(year as nat, 4)
    } else if year < 0 {
        seq!['-'] + zero_padded((-year) as nat, 4)
    } else {
        seq!['+'] + zero_padded(year as nat, 4)
    }
}

/// Name of the report file of run `index` started at `at`:
/// `./results/output-IIII-DDMM-YYYY-HHMM-SSCC.out`, with `CC` the
/// hundredths of the second.
pub open spec fn output_file_name_spec(index: usize, at: Timestamp) -> Seq<char> {
    "./results/output-"@ + zero_padded(index as nat, 4) + "-"@ + zero_padded(at.day as nat, 2)
        + zero_padded(at.month as nat, 2) + "-"@ + year_text(at.year) + "-"@ + zero_padded(
        at.hour as nat,
        2,
    ) + zero_padded(at.minute as nat, 2) + "-"@ + zero_padded(at.second as nat, 2) + zero_padded(
        (at.millis / 10) as nat,
        2,
    ) + ".out"@
}

/// A file name of ASCII letters, digits, '_' and '-' only: no separator,
/// no dot, no drive prefix.
pub open spec fn plain_file_name(s: Seq<char>) -> bool {
    &&& s.len() > 0
    &&& forall|i: int|
        0 <= i < s.len() ==> {
            let u = #[trigger] s[i] as u32;
            ||| 48 <= u <= 57
            ||| 65 <= u <= 90
            ||| 97 <= u <= 122
            ||| u == 95
            ||| u == 45
        }
}

/// What `std::path::Path::with_extension` makes of a path and an extension.
pub uninterp spec fn path_with_extension(path: Seq<char>, extension: Seq<char>) -> Seq<char>;

/// Calls `std::path::Path::new(path).with_extension(extension)` and gives
/// the path back as text. The result is named, not described: the file
/// name's extension is replaced by, or given, `extension`; of a plain file
/// name without extension it is stated that a non-empty extension is
/// appended after a '.'. The call panics
/// when `extension` holds a path separator ('/', or also '\\' on Windows),
/// so such extensions are left out.
#[verifier::external_body]
fn with_extension(path: &str, extension: &str) -> (r: String)
    requires
        forall|i: int|
            0 <= i < extension@.len() ==> #[trigger] extension@[i] != '/' && extension@[i] != '\\',
    ensures
        r@ == path_with_extension(path@, extension@),
        plain_file_name(path@) && extension@.len() > 0 ==> r@ == path@ + seq!['.'] + extension@,
{
    std::path::Path::new(path).with_extension(extension).to_string_lossy().into_owned()
}

fn push_year(s: &mut String, year: i32)
    ensures
        final(s)@ == old(s)@ + year_text(year),
{
    if 0 <= year && year <= 9999 {
        push_zero_padded(s, year as u64, 4);
    } else if year < 0 {
        push_char(s, '-');
        push_zero_padded(s, (-(year as i64)) as u64, 4);
        proof {
            assert(final(s)@ =~= old(s)@ + year_text(year));
        }
    } else {
        push_char(s, '+');
        push_zero_padded(s, year as u64, 4);
        proof {
            assert(final(s)@ =~= old(s)@ + year_text(year));
        }
    }
}

/// Writes an instance and its solutions as lists of city ids.
pub struct InstanceWriter {
    city_ids: Vec<i32>,
    instance: Vec<usize>,
    path_to_output: Option<String>,
}

impl InstanceWriter {
    /// Name of the report file of run `index`, started at `at`.
    pub fn output_file_name(index: usize, at: &Timestamp) -> (r: String)
        ensures
            r@ == output_file_name_spec(index, *at),
    {
        let mut s = String::new();
        s.append("./results/output-");
        push_zero_padded(&mut s, index as u64, 4);
        s.append("-");
        push_zero_padded(&mut s, at.day as u64, 2);
        push_zero_padded(&mut s, at.month as u64, 2);
        s.append("-");
        push_year(&mut s, at.year);
        s.append("-");
        push_zero_padded(&mut s, at.hour as u64, 2);
        push_zero_padded(&mut s, at.minute as u64, 2);
        s.append("-");
        push_zero_padded(&mut s, at.second as u64, 2);
        push_zero_padded(&mut s, (at.millis / 10) as u64, 2);
        s.append(".out");
        proof {
            assert(s@ =~= output_file_name_spec(index, *at));
        }
        s
    }

    /// Name of the file that holds the solutions of the run whose report
    /// goes to `path`: the same path with the extension `sol`.
    pub fn solutions_file_name(path: &str) -> (r: String)
        ensures
            r@ == path_with_extension(path@, "sol"@),
            plain_file_name(path@) ==> r@ == path@ + ".sol"@,
    {
        proof {
            reveal_strlit("sol");
            reveal_strlit(".sol");
            assert(seq!['.'] + "sol"@ =~= ".sol"@);
        }
        with_extension(path, "sol")
    }

    /// Ids of the known cities.
    pub closed spec fn ids(&self) -> Seq<i32> {
        self.city_ids@
    }

    /// The instance, as positions in the list of cities.
    pub closed spec fn cities_of_instance(&self) -> Seq<usize> {
        self.instance@
    }

    /// Where the report goes, if anywhere.
    pub closed spec fn output(&self) -> Option<Seq<char>> {
        match self.path_to_output {
            Some(p) => Some(p@),
            None => None,
        }
    }

    /// A writer for the instance `instance` over the cities with the ids
    /// `city_ids`, whose report goes to `path_to_output`, if anywhere.
    pub fn new(city_ids: &[i32], instance: &[usize], path_to_output: Option<String>) -> (r:
        InstanceWriter)
        ensures
            r.ids() == city_ids@,
            r.cities_of_instance() == instance@,
            r.output() == match path_to_output {
                Some(p) => Some(p@),
                None => None::<Seq<char>>,
            },
    {
        InstanceWriter {
            city_ids: vstd::slice::slice_to_vec(city_ids),
            instance: vstd::slice::slice_to_vec(instance),
            path_to_output,
        }
    }

    /// The path the report is written to, if any.
    pub fn output_path(&self) -> (r: Option<String>)
        ensures
            match r {
                Some(p) => self.output() == Some(p@),
                None => self.output() is None,
            },
    {
        match &self.path_to_output {
            Some(p) => Some(p.clone()),
            None => None,
        }
    }

    /// The instance as it was read in: the ids of its cities, in instance
    /// order, separated by commas. Fails on the first instance entry past
    /// the end of the list of cities.
    pub fn format_instance(&self) -> (r: Result<String, String>)
        ensures
            match r {
                Ok(s) => {
                    &&& forall|k: int|
                        0 <= k < self.cities_of_instance().len() ==> #[trigger] self.cities_of_instance()[k]
                            < self.ids().len()
                    &&& s@ == comma_joined(
                        Seq::new(
                            self.cities_of_instance().len(),
                            |k: int| id_label(self.ids(), self.cities_of_instance()[k] as int),
                        ),
                    )
                },
                Err(e) => exists|t: int|
                    {
                        &&& 0 <= t < self.cities_of_instance().len()
                        &&& forall|u: int|
                            0 <= u < t ==> #[trigger] self.cities_of_instance()[u] < self.ids().len()
                        &&& self.cities_of_instance()[t] >= self.ids().len()
                        &&& e@ == city_index_error(self.cities_of_instance()[t])
                    },
            },
    {
        let ghost labels = Seq::new(
            self.instance@.len(),
            |k: int| id_label(self.city_ids@, self.instance@[k] as int),
        );
        let mut s = String::new();
        let mut k: usize = 0;
        while k < self.instance.len()
            invariant
                k <= self.instance@.len(),
                labels == Seq::new(
                    self.instance@.len(),
                    |k: int| id_label(self.city_ids@, self.instance@[k] as int),
                ),
                forall|u: int| 0 <= u < k ==> #[trigger] self.instance@[u] < self.city_ids@.len(),
                s@ == comma_joined(labels.take(k as int)),
            decreases self.instance@.len() - k,
        {
            let city_index = self.instance[k];
            if city_index >= self.city_ids.len() {
                let mut e = String::new();
                e.append("city index ");
                push_zero_padded(&mut e, city_index as u64, 0);
                e.append(" out of range");
                proof {
                    assert(zero_padded(city_index as nat, 0) =~= digits_of(city_index as nat));
                    assert(e@ =~= city_index_error(city_index));
                    let t = k as int;
                    assert(self.cities_of_instance()[t] >= self.ids().len());
                    assert(forall|u: int|
                        0 <= u < t ==> #[trigger] self.cities_of_instance()[u] < self.ids().len());
                }
                return Err(e);
            }
            if k > 0 {
                push_char(&mut s, ',');
            }
            push_i32(&mut s, self.city_ids[city_index]);
            proof {
                let next = labels.take(k + 1);
                assert(next.drop_last() =~= labels.take(k as int));
                assert(next.last() == labels[k as int]);
                if k == 0 {
                    assert(s@ =~= next[0]);
                } else {
                    assert(s@ =~= comma_joined(labels.take(k as int)) + seq![','] + next.last());
                }
            }
            k = k + 1;
        }
        proof {
            assert(labels.take(k as int) =~= labels);
        }
        Ok(s)
    }

    /// The solution, given as positions in the instance, rendered as the
    /// ids of the cities at those positions, separated by commas. Fails on
    /// the first position past the end of the instance, or whose instance
    /// entry is past the end of the list of cities.
    pub fn format_path(&self, solution: &[usize]) -> (r: Result<String, String>)
        ensures
            match r {
                Ok(s) => {
                    &&& forall|t: int|
                        0 <= t < solution@.len() ==> position_resolves(
                            self.ids(),
                            self.cities_of_instance(),
                            #[trigger] solution@[t],
                        )
                    &&& s@ == comma_joined(
                        Seq::new(
                            solution@.len(),
                            |t: int|
                                id_label(
                                    self.ids(),
                                    self.cities_of_instance()[solution@[t] as int] as int,
                                ),
                        ),
                    )
                },
                Err(e) => exists|t: int|
                    {
                        &&& 0 <= t < solution@.len()
                        &&& forall|u: int|
                            0 <= u < t ==> position_resolves(
                                self.ids(),
                                self.cities_of_instance(),
                                #[trigger] solution@[u],
                            )
                        &&& !position_resolves(self.ids(), self.cities_of_instance(), solution@[t])
                        &&& e@ == position_failure(
                            self.ids(),
                            self.cities_of_instance(),
                            solution@[t],
                        )
                    },
            },
    {
        let ghost labels = Seq::new(
            solution@.len(),
            |t: int| id_label(self.city_ids@, self.instance@[solution@[t] as int] as int),
        );
        let mut s = String::new();
        let mut k: usize = 0;
        while k < solution.len()
            invariant
                k <= solution@.len(),
                labels == Seq::new(
                    solution@.len(),
                    |t: int| id_label(self.city_ids@, self.instance@[solution@[t] as int] as int),
                ),
                forall|u: int|
                    0 <= u < k ==> position_resolves(
                        self.city_ids@,
                        self.instance@,
                        #[trigger] solution@[u],
                    ),
                s@ == comma_joined(labels.take(k as int)),
            decreases solution@.len() - k,
        {
            let position = solution[k];
            if position >= self.instance.len() {
                let mut e = String::new();
                e.append("solution position ");
                push_zero_padded(&mut e, position as u64, 0);
                e.append(" out of range");
                proof {
                    assert(zero_padded(position as nat, 0) =~= digits_of(position as nat));
                    assert(e@ =~= position_error(position));
                }
                return Err(e);
            }
            let city_index = self.instance[position];
            if city_index >= self.city_ids.len() {
                let mut e = String::new();
                e.append("city index ");
                push_zero_padded(&mut e, city_index as u64, 0);
                e.append(" out of range");
                proof {
                    assert(zero_padded(city_index as nat, 0) =~= digits_of(city_index as nat));
                    assert(e@ =~= city_index_error(city_index));
                }
                return Err(e);
            }
            if k > 0 {
                push_char(&mut s, ',');
            }
            push_i32(&mut s, self.city_ids[city_index]);
            proof {
                let next = labels.take(k + 1);
                assert(next.drop_last() =~= labels.take(k as int));
                assert(next.last() == labels[k as int]);
                if k == 0 {
                    assert(s@ =~= next[0]);
                } else {
                    assert(s@ =~= comma_joined(labels.take(k as int)) + seq![','] + next.last());
                }
            }
            k = k + 1;
        }
        proof {
            assert(labels.take(k as int) =~= labels);
        }
        Ok(s)
    }
}

} // verus!
