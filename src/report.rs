use vstd::prelude::*;

verus! {

/// Number of recent log files handed to the report generator.
pub const RECENT_FILES: usize = 2;

/// A log file is a `.csv` file with a non-empty stem.
pub open spec fn is_log_name(s: Seq<char>) -> bool {
    s.len() > 4 && s.subrange(s.len() - 4, s.len() as int) == seq!['.', 'c', 's', 'v']
}

/// `a` is at most `b` in lexical order, comparing from position `i` on.
pub open spec fn lex_le_from(a: Seq<char>, b: Seq<char>, i: int) -> bool
    decreases a.len() - i,
{
    if i < 0 || i >= a.len() {
        true
    } else if i >= b.len() {
        false
    } else if a[i] < b[i] {
        true
    } else if a[i] > b[i] {
        false
    } else {
        lex_le_from(a, b, i + 1)
    }
}

/// Lexical order of file names.
pub open spec fn lex_le(a: Seq<char>, b: Seq<char>) -> bool {
    lex_le_from(a, b, 0)
}

pub proof fn lemma_lex_total(a: Seq<char>, b: Seq<char>, i: int)
    requires
        0 <= i,
    ensures
        lex_le_from(a, b, i) || lex_le_from(b, a, i),
    decreases a.len() - i,
{
    if i < a.len() && i < b.len() && a[i] == b[i] {
        lemma_lex_total(a, b, i + 1);
    }
}

pub proof fn lemma_lex_trans(a: Seq<char>, b: Seq<char>, c: Seq<char>, i: int)
    requires
        0 <= i,
        lex_le_from(a, b, i),
        lex_le_from(b, c, i),
    ensures
        lex_le_from(a, c, i),
    decreases a.len() - i,
{
    if i < a.len() && i < b.len() && i < c.len() && a[i] == b[i] && b[i] == c[i] {
        lemma_lex_trans(a, b, c, i + 1);
    }
}

/// Whether `s` names a log file.
pub fn is_log_file(s: &str) -> (r: bool)
    ensures
        r == is_log_name(s@),
{
    let n = s.unicode_len();
    if n <= 4 {
        return false;
    }
    let r = s.get_char(n - 4) == '.' && s.get_char(n - 3) == 'c' && s.get_char(n - 2) == 's'
        && s.get_char(n - 1) == 'v';
    proof {
        let t = s@.subrange(n - 4, n as int);
        if r {
            assert(t =~= seq!['.', 'c', 's', 'v']);
        } else {
            if t == seq!['.', 'c', 's', 'v'] {
                assert(t[0] == s@[n - 4]);
                assert(t[1] == s@[n - 3]);
                assert(t[2] == s@[n - 2]);
                assert(t[3] == s@[n - 1]);
            }
        }
    }
    r
}

/// Whether `a` comes no later than `b` in lexical order.
pub fn name_le(a: &str, b: &str) -> (r: bool)
    ensures
        r == lex_le(a@, b@),
{
    let na = a.unicode_len();
    let nb = b.unicode_len();
    let mut i: usize = 0;
    while i < na && i < nb
        invariant
            na == a@.len(),
            nb == b@.len(),
            i <= na,
            i <= nb,
            lex_le(a@, b@) == lex_le_from(a@, b@, i as int),
        decreases na - i,
    {
        let x = a.get_char(i);
        let y = b.get_char(i);
        if x < y {
            return true;
        }
        if x > y {
            return false;
        }
        i = i + 1;
    }
    i >= na
}

/// `r` lists the most recent log files among `names`, newest first: the two
/// greatest log names in lexical order, or all of them when there are fewer.
pub open spec fn is_recent_selection(names: Seq<String>, r: Seq<String>) -> bool {
    &&& r.len() == 0 ==> forall|k: int| 0 <= k < names.len() ==> !is_log_name(#[trigger] names[k]@)
    &&& r.len() == 1 ==> exists|i0: int|
        0 <= i0 < names.len() && is_log_name(#[trigger] names[i0]@) && r[0]@ == names[i0]@ && (
        forall|k: int| 0 <= k < names.len() && is_log_name(#[trigger] names[k]@) ==> k == i0)
    &&& r.len() == 2 ==> lex_le(r[1]@, r[0]@) && exists|i0: int, i1: int|
        0 <= i0 < names.len() && 0 <= i1 < names.len() && i0 != i1 && is_log_name(
            #[trigger] names[i0]@,
        ) && is_log_name(#[trigger] names[i1]@) && r[0]@ == names[i0]@ && r[1]@ == names[i1]@
            && (forall|k: int|
            0 <= k < names.len() && k != i0 && k != i1 && is_log_name(#[trigger] names[k]@)
                ==> lex_le(names[k]@, r[1]@))
    &&& r.len() <= RECENT_FILES
}

/// Picks the log files to hand to the report generator from the names found
/// in the log directory.
pub fn select_recent(names: &Vec<String>) -> (r: Vec<String>)
    ensures
        is_recent_selection(names@, r@),
{
    let mut best: Option<usize> = None;
    let mut second: Option<usize> = None;
    let mut j: usize = 0;
    while j < names.len()
        invariant
            j <= names@.len(),
            second is Some ==> best is Some,
            best matches Some(b) ==> b < j && is_log_name(names@[b as int]@),
            second matches Some(s) ==> s < j && is_log_name(names@[s as int]@) && best != Some(s)
                && lex_le(names@[s as int]@, names@[best->0 as int]@),
            best is None ==> forall|k: int| 0 <= k < j ==> !is_log_name(#[trigger] names@[k]@),
            second is None && best is Some ==> forall|k: int|
                0 <= k < j && is_log_name(#[trigger] names@[k]@) ==> k == best->0,
            second is Some ==> forall|k: int|
                0 <= k < j && k != best->0 && k != second->0 && is_log_name(
                    #[trigger] names@[k]@,
                ) ==> lex_le(names@[k]@, names@[second->0 as int]@),
        decreases names@.len() - j,
    {
        if is_log_file(names[j].as_str()) {
            match best {
                None => {
                    best = Some(j);
                },
                Some(b) => {
                    if name_le(names[b].as_str(), names[j].as_str()) {
                        proof {
                            if second is Some {
                                let s = second->0 as int;
                                assert forall|k: int|
                                    0 <= k < j + 1 && k != j && k != b && is_log_name(
                                        #[trigger] names@[k]@,
                                    ) implies lex_le(names@[k]@, names@[b as int]@) by {
                                    if k != s {
                                        lemma_lex_trans(
                                            names@[k]@,
                                            names@[s]@,
                                            names@[b as int]@,
                                            0,
                                        );
                                    }
                                }
                            } else {
                                assert(lex_le_from(names@[b as int]@, names@[b as int]@, 0)) by {
                                    lemma_lex_total(names@[b as int]@, names@[b as int]@, 0);
                                }
                            }
                        }
                        second = Some(b);
                        best = Some(j);
                    } else {
                        proof {
                            lemma_lex_total(names@[b as int]@, names@[j as int]@, 0);
                        }
                        match second {
                            None => {
                                second = Some(j);
                            },
                            Some(s) => {
                                if name_le(names[s].as_str(), names[j].as_str()) {
                                    proof {
                                        assert forall|k: int|
                                            0 <= k < j + 1 && k != b && k != j && is_log_name(
                                                #[trigger] names@[k]@,
                                            ) implies lex_le(names@[k]@, names@[j as int]@) by {
                                            if k != s as int {
                                                lemma_lex_trans(
                                                    names@[k]@,
                                                    names@[s as int]@,
                                                    names@[j as int]@,
                                                    0,
                                                );
                                            }
                                        }
                                    }
                                    second = Some(j);
                                } else {
                                    proof {
                                        lemma_lex_total(names@[s as int]@, names@[j as int]@, 0);
                                    }
                                }
                            },
                        }
                    }
                },
            }
        }
        j = j + 1;
    }
    let mut r: Vec<String> = Vec::new();
    match best {
        Some(b) => {
            r.push(names[b].clone());
            match second {
                Some(s) => {
                    r.push(names[s].clone());
                    assert(is_log_name(names@[b as int]@) && is_log_name(names@[s as int]@));
                },
                None => {
                    assert(is_log_name(names@[b as int]@));
                },
            }
        },
        None => {},
    }
    r
}

/// What the report step does with the names found in the log directory.
pub enum ReportPlan {
    /// No log file exists: no report generator is started.
    NothingToProcess,
    /// Start the report generator on these files, newest first.
    Generate(Vec<String>),
}

/// Decides the report step: nothing to process when no log file exists,
/// otherwise the most recent log files.
pub fn plan_report(names: &Vec<String>) -> (r: ReportPlan)
    ensures
        r is NothingToProcess <==> forall|k: int|
            0 <= k < names@.len() ==> !is_log_name(#[trigger] names@[k]@),
        r matches ReportPlan::Generate(files) ==> files@.len() >= 1 && is_recent_selection(
            names@,
            files@,
        ),
{
    let files = select_recent(names);
    if files.len() == 0 {
        ReportPlan::NothingToProcess
    } else {
        ReportPlan::Generate(files)
    }
}

} // verus!
