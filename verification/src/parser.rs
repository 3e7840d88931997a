//! The builder: parses DIMACS CNF text (as bytes) into a fully-formed
//! formula with its reverse index, rejecting malformed input before the
//! solver ever runs. Tautological clauses are dropped entirely: they carry
//! no constraint. An empty clause is already violated, so appending one
//! sets the contradiction flag at construction.

use vstd::prelude::*;

use crate::formula::{
    clause_has_lit, clause_in_bounds, clause_tautological, entry_ok_for, has_entry,
    index_complete_for, index_sound_for, lemma_building_wf, Assignment, Clause, Formula, Literal,
};

verus! {

/// A parse-time failure. All failures are fatal to the parse: no formula is
/// produced.
#[derive(Copy, Clone, PartialEq, Eq, Structural, Debug)]
pub enum ParseError {
    /// Every line of the input is a comment, or the input is empty.
    MissingProblemLine,
    /// The problem line does not have exactly four tokens.
    WrongParameterCount,
    /// The first problem-line token is not the literal `p`.
    NotProblemLine,
    /// The format token is not the literal `cnf`.
    UnsupportedFormat,
    /// The variable-count field is not a positive number that fits the
    /// machine.
    BadVariableCount,
    /// The clause-count field is not a number that fits the machine.
    BadClauseCount,
    /// A clause token is not a non-zero signed integer.
    IllegalVariable,
    /// A clause token names a variable past the declared count.
    VariableOutOfRange,
    /// Fewer clause terminators than declared.
    NotEnoughClauses,
    /// More clauses than declared, or trailing non-whitespace input.
    TooManyClauses,
}

impl ParseError {
    /// The description each failure carries.
    pub open spec fn message_spec(&self) -> Seq<char> {
        match self {
            ParseError::MissingProblemLine => "Missing problem line"@,
            ParseError::WrongParameterCount => "Wrong number of parameters in problem line"@,
            ParseError::NotProblemLine => "Invalid problem line"@,
            ParseError::UnsupportedFormat => "Only cnf-formatted inputs are currently allowed"@,
            ParseError::BadVariableCount => "Third problem line parameter invalid"@,
            ParseError::BadClauseCount => "Fourth problem line parameter invalid"@,
            ParseError::IllegalVariable => "Illegal variable"@,
            ParseError::VariableOutOfRange => "Variable out of range"@,
            ParseError::NotEnoughClauses => "Not enough clauses"@,
            ParseError::TooManyClauses => "Too many clauses"@,
        }
    }

    /// A short description of the failure.
    pub fn message(&self) -> (r: &'static str)
        ensures
            r@ == self.message_spec(),
    {
        match self {
            ParseError::MissingProblemLine => "Missing problem line",
            ParseError::WrongParameterCount => "Wrong number of parameters in problem line",
            ParseError::NotProblemLine => "Invalid problem line",
            ParseError::UnsupportedFormat => "Only cnf-formatted inputs are currently allowed",
            ParseError::BadVariableCount => "Third problem line parameter invalid",
            ParseError::BadClauseCount => "Fourth problem line parameter invalid",
            ParseError::IllegalVariable => "Illegal variable",
            ParseError::VariableOutOfRange => "Variable out of range",
            ParseError::NotEnoughClauses => "Not enough clauses",
            ParseError::TooManyClauses => "Too many clauses",
        }
    }
}

/// ASCII whitespace, as DIMACS separates tokens.
pub open spec fn is_space_spec(b: u8) -> bool {
    b == 32 || b == 9 || b == 10 || b == 11 || b == 12 || b == 13
}

fn is_space(b: u8) -> (r: bool)
    ensures
        r == is_space_spec(b),
{
    b == 32 || b == 9 || b == 10 || b == 11 || b == 12 || b == 13
}

/// The next whitespace-separated token in `input[pos..limit)`: its start and
/// end. When no token remains, both bounds equal `limit`.
fn next_token(input: &Vec<u8>, pos: usize, limit: usize) -> (res: (usize, usize))
    requires
        pos <= limit <= input@.len(),
    ensures
        pos <= res.0 <= res.1 <= limit,
        res.0 == res.1 ==> res.1 == limit,
        res.0 < res.1 ==> res.0 < limit,
        res.0 == skip_space(input@, pos as int, limit as int),
        res.1 == scan_token(input@, res.0 as int, limit as int),
{
    let mut start = pos;
    while start < limit && is_space(input[start])
        invariant
            pos <= start <= limit <= input@.len(),
            skip_space(input@, pos as int, limit as int) == skip_space(
                input@,
                start as int,
                limit as int,
            ),
        decreases limit - start,
    {
        start += 1;
    }
    let mut end = start;
    while end < limit && !is_space(input[end])
        invariant
            start <= end <= limit <= input@.len(),
            scan_token(input@, start as int, limit as int) == scan_token(
                input@,
                end as int,
                limit as int,
            ),
        decreases limit - end,
    {
        end += 1;
    }
    (start, end)
}

/// Parses an unsigned decimal integer from `input[start..end)`, rejecting
/// empty ranges, non-digits and overflow.
fn parse_unsigned(input: &Vec<u8>, start: usize, end: usize) -> (r: Option<u64>)
    requires
        start <= end <= input@.len(),
    ensures
        match r {
            Some(v) => start < end && all_digits(input@, start as int, end as int) && v
                == digits_value(input@, start as int, end as int),
            None => !(start < end && all_digits(input@, start as int, end as int) && digits_value(
                input@,
                start as int,
                end as int,
            ) <= u64::MAX),
        },
{
    if start == end {
        return None;
    }
    let mut value: u64 = 0;
    let mut i = start;
    while i < end
        invariant
            start <= i <= end <= input@.len(),
            all_digits(input@, start as int, i as int),
            value == digits_value(input@, start as int, i as int),
        decreases end - i,
    {
        let d = input[i];
        if d < 48 || d > 57 {
            return None;
        }
        let dv = (d - 48) as u64;
        if value > (u64::MAX - dv) / 10 {
            proof {
                assert(value * 10 + dv > u64::MAX) by (nonlinear_arith)
                    requires
                        value > (u64::MAX - dv) / 10,
                        0 <= dv <= 9,
                {
                }
                if all_digits(input@, start as int, end as int) {
                    lemma_digits_value_le(input@, start as int, i + 1, end as int);
                }
            }
            return None;
        }
        value = value * 10 + dv;
        i += 1;
    }
    Some(value)
}

impl Formula {
    /// A formula over `num_vars` variables with no clauses yet.
    fn empty(num_vars: usize) -> (f: Formula)
        ensures
            f.building(),
            f.num_vars() == num_vars,
            f.clauses@.len() == 0,
    {
        let mut clause_indices: Vec<Vec<(usize, bool)>> = Vec::new();
        let mut k: usize = 0;
        while k < num_vars
            invariant
                k <= num_vars,
                clause_indices@.len() == k,
                forall|v: int| 0 <= v < k ==> (#[trigger] clause_indices@[v])@.len() == 0,
            decreases num_vars - k,
        {
            clause_indices.push(Vec::new());
            k += 1;
        }
        Formula {
            clauses: Vec::new(),
            satisfied: Vec::new(),
            assignment: Assignment::new(num_vars),
            clause_indices,
            assign_history: Vec::new(),
            remaining_clauses: 0,
            unsolvable: false,
            next_literal_id: 0,
        }
    }

    /// Appends a finished clause: registers a reverse-index entry for every
    /// one of its literals and counts it as remaining. An empty clause sets
    /// the contradiction flag, being violated under any assignment.
    fn push_clause(&mut self, clause: Clause)
        requires
            old(self).building(),
            clause_in_bounds(clause@, old(self).num_vars()),
        ensures
            final(self).building(),
            final(self).num_vars() == old(self).num_vars(),
            final(self).clauses@ == old(self).clauses@.push(clause),
            final(self).assignment@ == old(self).assignment@,
            final(self).assign_history@ == old(self).assign_history@,
    {
        let ghost c = clause@;
        let ghost n = self.num_vars();
        let num_lits = clause.lits.len();
        if num_lits == 0 {
            self.unsolvable = true;
        }
        let clause_idx = self.clauses.len();
        self.clauses.push(clause);
        self.satisfied.push(false);
        let new_len = self.clauses.len();
        proof {
            assert(self.clauses@.drop_last() =~= old(self).clauses@);
            assert(self.satisfied@.drop_last() =~= old(self).satisfied@);
            assert(self.remaining_clauses + 1 == new_len);
        }
        self.remaining_clauses += 1;
        let ghost cs_new = self.clauses@;
        proof {
            // soundness of existing entries carries over: the clauses they
            // point at kept their positions
            assert forall|v: int, k: int|
                0 <= v < n && 0 <= k < self.clause_indices@[v]@.len() implies #[trigger] entry_ok_for(
                cs_new,
                self.clause_indices@,
                v,
                k,
            ) by {
                assert(entry_ok_for(old(self).clauses@, self.clause_indices@, v, k));
            }
        }
        proof {
            if self.unsolvable {
                if old(self).unsolvable {
                    let j = choose|j: int|
                        0 <= j < old(self).clauses@.len() && (#[trigger] old(self).clauses@[j])@.len()
                            == 0;
                    assert(cs_new[j]@.len() == 0);
                } else {
                    assert(cs_new[clause_idx as int]@.len() == 0);
                }
            } else {
                assert forall|j: int|
                    0 <= j < cs_new.len() implies (#[trigger] cs_new[j])@.len() != 0 by {
                    if j < clause_idx {
                        assert(old(self).clauses@[j]@.len() != 0);
                    }
                }
            }
        }
        let mut k: usize = 0;
        while k < num_lits
            invariant
                k <= num_lits,
                c.len() == num_lits,
                n == self.num_vars(),
                n == old(self).num_vars(),
                clause_in_bounds(c, n),
                self.clauses@ == cs_new,
                cs_new.len() == clause_idx + 1,
                clause_idx == old(self).clauses@.len(),
                cs_new[clause_idx as int]@ == c,
                forall|j: int| 0 <= j < clause_idx ==> cs_new[j] == old(self).clauses@[j],
                forall|j: int|
                    0 <= j < cs_new.len() ==> clause_in_bounds((#[trigger] cs_new[j])@, n),
                self.satisfied@.len() == cs_new.len(),
                forall|j: int| 0 <= j < self.satisfied@.len() ==> !(#[trigger] self.satisfied@[j]),
                self.remaining_clauses == cs_new.len(),
                self.assignment@ == old(self).assignment@,
                forall|i: int| 0 <= i < n ==> (#[trigger] self.assignment@[i]) is None,
                self.assign_history@ == old(self).assign_history@,
                self.assign_history@.len() == 0,
                self.next_literal_id == 0,
                self.clause_indices@.len() == n,
                self.unsolvable <==> exists|j: int|
                    0 <= j < cs_new.len() && (#[trigger] cs_new[j])@.len() == 0,
                index_sound_for(cs_new, self.clause_indices@, n),
                forall|j: int, m: int|
                    0 <= j < clause_idx && 0 <= m < cs_new[j]@.len() ==> has_entry(
                        self.clause_indices@[(#[trigger] cs_new[j]@[m]).id as int]@,
                        j,
                        cs_new[j]@[m].negated,
                    ),
                forall|m: int|
                    0 <= m < k ==> has_entry(
                        self.clause_indices@[(#[trigger] c[m]).id as int]@,
                        clause_idx as int,
                        c[m].negated,
                    ),
            decreases num_lits - k,
        {
            let lit = self.clauses[clause_idx].lits[k];
            let ghost idx_before = self.clause_indices@;
            self.clause_indices[lit.id].push((clause_idx, lit.negated));
            proof {
                let idx_after = self.clause_indices@;
                assert(idx_after[lit.id as int]@ == idx_before[lit.id as int]@.push(
                    (clause_idx, lit.negated),
                ));
                assert forall|v: int, k2: int|
                    0 <= v < n && 0 <= k2 < idx_after[v]@.len() implies #[trigger] entry_ok_for(
                    cs_new,
                    idx_after,
                    v,
                    k2,
                ) by {
                    if v == lit.id as int && k2 == idx_before[v]@.len() {
                        assert(idx_after[v]@[k2] == (clause_idx, lit.negated));
                        assert(cs_new[clause_idx as int]@[k as int] == lit);
                    } else {
                        assert(idx_after[v]@[k2] == idx_before[v]@[k2]);
                        assert(entry_ok_for(cs_new, idx_before, v, k2));
                    }
                }
                assert forall|j: int, m: int|
                    0 <= j < clause_idx && 0 <= m < cs_new[j]@.len() implies has_entry(
                    idx_after[(#[trigger] cs_new[j]@[m]).id as int]@,
                    j,
                    cs_new[j]@[m].negated,
                ) by {
                    let v = cs_new[j]@[m].id as int;
                    let k3 = choose|k3: int|
                        0 <= k3 < idx_before[v]@.len() && (#[trigger] idx_before[v]@[k3]).0 == j
                            && idx_before[v]@[k3].1 == cs_new[j]@[m].negated;
                    assert(idx_after[v]@[k3] == idx_before[v]@[k3]);
                }
                assert forall|m: int|
                    0 <= m < k + 1 implies has_entry(
                    idx_after[(#[trigger] c[m]).id as int]@,
                    clause_idx as int,
                    c[m].negated,
                ) by {
                    if m < k {
                        let v = c[m].id as int;
                        let k3 = choose|k3: int|
                            0 <= k3 < idx_before[v]@.len() && (#[trigger] idx_before[v]@[k3]).0
                                == clause_idx && idx_before[v]@[k3].1 == c[m].negated;
                        assert(idx_after[v]@[k3] == idx_before[v]@[k3]);
                    } else {
                        let v = lit.id as int;
                        let k3 = idx_before[v]@.len() as int;
                        assert(idx_after[v]@[k3] == (clause_idx, lit.negated));
                    }
                }
            }
            k += 1;
        }
        proof {
            assert forall|j: int, m: int|
                0 <= j < cs_new.len() && 0 <= m < cs_new[j]@.len() implies has_entry(
                self.clause_indices@[(#[trigger] cs_new[j]@[m]).id as int]@,
                j,
                cs_new[j]@[m].negated,
            ) by {
                if j == clause_idx as int {
                    assert(cs_new[j]@ == c);
                }
            }
            assert(index_complete_for(cs_new, self.clause_indices@));
        }
    }
}

} // verus!

verus! {

impl Formula {
    /// The first line that is not a comment: its start and end offsets.
    fn find_problem_line(input: &Vec<u8>) -> (r: Option<(usize, usize)>)
        ensures
            match r {
                Some(se) => {
                    &&& se.0 == problem_line_start(input@, 0)
                    &&& (se.0 as int) < input@.len()
                    &&& se.1 == line_end(input@, se.0 as int)
                    &&& se.0 <= se.1 <= input@.len()
                },
                None => problem_line_start(input@, 0) == input@.len(),
            },
    {
        let len = input.len();
        let mut pos: usize = 0;
        while pos < len
            invariant
                pos <= len,
                len == input@.len(),
                problem_line_start(input@, 0) == problem_line_start(input@, pos as int),
            decreases len - pos,
        {
            let line_start = pos;
            let mut eol = pos;
            while eol < len && input[eol] != 10
                invariant
                    pos <= eol <= len,
                    len == input@.len(),
                    line_end(input@, pos as int) == line_end(input@, eol as int),
                decreases len - eol,
            {
                eol += 1;
            }
            proof {
                assert(line_end(input@, line_start as int) == eol);
            }
            if line_start < eol && input[line_start] == 99 {
                // comment line: skip past the newline
                pos = if eol < len {
                    eol + 1
                } else {
                    len
                };
            } else {
                return Some((line_start, eol));
            }
        }
        None
    }

    /// Parses DIMACS CNF text and returns the corresponding formula or an
    /// error, exactly as `spec_parse` reads the text: comment lines
    /// (starting with `c`) are skipped up to the problem line
    /// `p cnf <num_vars> <num_clauses>`; the rest of the text must hold
    /// exactly `num_clauses` zero-terminated clauses followed by nothing but
    /// whitespace. A positive token `k` denotes variable `k` held
    /// positively, `-k` denotes it negated. A clause holding both a
    /// variable and its negation is a tautology: it constrains nothing and
    /// is dropped entirely.
    pub fn parse_dimacs(input: &Vec<u8>) -> (r: Result<Formula, ParseError>)
        ensures
            match r {
                Ok(f) => {
                    &&& f.wf()
                    &&& !f.unsolvable ==> f.no_violated()
                    &&& f.assign_history@.len() == 0
                    &&& forall|i: int|
                        0 <= i < f.num_vars() ==> (#[trigger] f.assignment@[i]) is None
                    &&& forall|j: int|
                        0 <= j < f.clauses@.len() ==> !clause_tautological(
                            (#[trigger] f.clauses@[j])@,
                        )
                    &&& match spec_parse(input@) {
                        Ok(d) => f.num_vars() == d.0 && clause_views(f.clauses@) == d.1,
                        Err(_) => false,
                    }
                },
                Err(e) => spec_parse(input@) == Err::<(int, Seq<Seq<Literal>>), ParseError>(e),
            },
    {
        let ghost s = input@;
        let len = input.len();
        let (line_start, header_end) = match Self::find_problem_line(input) {
            Some(se) => se,
            None => {
                return Err(ParseError::MissingProblemLine);
            },
        };
        let (s1, e1) = next_token(input, line_start, header_end);
        let (s2, e2) = next_token(input, e1, header_end);
        let (s3, e3) = next_token(input, e2, header_end);
        let (s4, e4) = next_token(input, e3, header_end);
        let (s5, e5) = next_token(input, e4, header_end);
        if s1 == e1 || s2 == e2 || s3 == e3 || s4 == e4 || s5 < e5 {
            return Err(ParseError::WrongParameterCount);
        }
        if !(e1 - s1 == 1 && input[s1] == 112) {
            return Err(ParseError::NotProblemLine);
        }
        if !(e2 - s2 == 3 && input[s2] == 99 && input[s2 + 1] == 110 && input[s2 + 2] == 102) {
            return Err(ParseError::UnsupportedFormat);
        }
        let num_vars_wide = match parse_unsigned(input, s3, e3) {
            Some(v) => v,
            None => {
                return Err(ParseError::BadVariableCount);
            },
        };
        if num_vars_wide == 0 || num_vars_wide > usize::MAX as u64 {
            // the declared variable count must be a positive integer
            return Err(ParseError::BadVariableCount);
        }
        let num_vars = num_vars_wide as usize;
        let num_clauses_wide = match parse_unsigned(input, s4, e4) {
            Some(v) => v,
            None => {
                return Err(ParseError::BadClauseCount);
            },
        };
        if num_clauses_wide > usize::MAX as u64 {
            return Err(ParseError::BadClauseCount);
        }
        let num_clauses = num_clauses_wide as usize;

        let mut formula = Formula::empty(num_vars);
        let mut cur = Clause::new();
        let mut dropping = false;
        let mut done: usize = 0;
        let mut pos = header_end;
        proof {
            assert(spec_parse(s) == (match spec_parse_clauses(
                s,
                header_end as int,
                num_vars as int,
                num_clauses as int,
                Seq::<Literal>::empty(),
                false,
            ) {
                Ok(rest) => if no_token_after(s, rest.1) {
                    Ok::<(int, Seq<Seq<Literal>>), ParseError>((num_vars as int, rest.0))
                } else {
                    Err(ParseError::TooManyClauses)
                },
                Err(e) => Err(e),
            }));
            assert(cur@ =~= Seq::<Literal>::empty());
            assert(clause_views(formula.clauses@) =~= Seq::<Seq<Literal>>::empty());
            match spec_parse_clauses(
                s,
                header_end as int,
                num_vars as int,
                num_clauses as int,
                Seq::<Literal>::empty(),
                false,
            ) {
                Ok(rest) => {
                    assert(clause_views(formula.clauses@) + rest.0 =~= rest.0);
                },
                Err(e) => {},
            }
        }
        while done < num_clauses
            invariant
                pos <= len,
                len == s.len(),
                s == input@,
                done <= num_clauses,
                formula.building(),
                formula.num_vars() == num_vars,
                clause_in_bounds(cur@, num_vars as int),
                !clause_tautological(cur@),
                forall|j: int|
                    0 <= j < formula.clauses@.len() ==> !clause_tautological(
                        (#[trigger] formula.clauses@[j])@,
                    ),
                spec_parse(s) == (match spec_parse_clauses(
                    s,
                    pos as int,
                    num_vars as int,
                    num_clauses - done,
                    cur@,
                    dropping,
                ) {
                    Ok(rest) => if no_token_after(s, rest.1) {
                        Ok::<(int, Seq<Seq<Literal>>), ParseError>((
                            num_vars as int,
                            clause_views(formula.clauses@) + rest.0,
                        ))
                    } else {
                        Err(ParseError::TooManyClauses)
                    },
                    Err(e) => Err(e),
                }),
            decreases len - pos,
        {
            let ghost todo = num_clauses - done;
            let ghost cur0 = cur@;
            let (ts, te) = next_token(input, pos, len);
            if ts == te {
                return Err(ParseError::NotEnoughClauses);
            }
            pos = te;
            let negated = input[ts] == 45;
            let mstart = if negated {
                ts + 1
            } else {
                ts
            };
            let magnitude = match parse_unsigned(input, mstart, te) {
                Some(v) => v,
                None => {
                    return Err(ParseError::IllegalVariable);
                },
            };
            if magnitude == 0 {
                if negated {
                    // `-0` is not a non-zero integer, and zero only serves
                    // as the clause terminator
                    return Err(ParseError::IllegalVariable);
                }
                if !dropping {
                    let ghost fc_before = formula.clauses@;
                    let ghost cv = cur@;
                    formula.push_clause(cur);
                    proof {
                        assert forall|j: int|
                            0 <= j < formula.clauses@.len() implies !clause_tautological(
                            (#[trigger] formula.clauses@[j])@,
                        ) by {
                            if j < fc_before.len() {
                                assert(formula.clauses@[j] == fc_before[j]);
                            } else {
                                assert(formula.clauses@[j]@ == cv);
                            }
                        }
                        match spec_parse_clauses(
                            s,
                            te as int,
                            num_vars as int,
                            todo - 1,
                            Seq::<Literal>::empty(),
                            false,
                        ) {
                            Ok(rest) => {
                                assert(clause_views(formula.clauses@) =~= clause_views(
                                    fc_before,
                                ).push(cv));
                                assert(clause_views(fc_before) + (seq![cv] + rest.0)
                                    =~= clause_views(formula.clauses@) + rest.0);
                            },
                            Err(e) => {},
                        }
                    }
                    cur = Clause::new();
                } else {
                    cur = Clause::new();
                    dropping = false;
                }
                done += 1;
                proof {
                    assert(cur@ =~= Seq::<Literal>::empty());
                }
            } else if dropping {
                // the clause is a tautology; its remaining literals are
                // consumed and ignored
            } else {
                if magnitude > num_vars as u64 {
                    return Err(ParseError::VariableOutOfRange);
                }
                let lit = Literal { id: (magnitude as usize) - 1, negated };
                proof {
                    assert(lit == (Literal { id: ((magnitude as int) - 1) as usize, negated }));
                }
                if cur.contains_complement(lit) {
                    // the clause holds both a variable and its negation:
                    // trivially satisfied, so it is dropped and never
                    // counted
                    proof {
                        assert(clause_has_lit(cur0, lit.complement()));
                    }
                    dropping = true;
                    cur = Clause::new();
                    proof {
                        assert(cur@ =~= Seq::<Literal>::empty());
                    }
                } else {
                    proof {
                        assert(!clause_has_lit(cur0, lit.complement()));
                        let cv = cur@;
                        if clause_tautological(cv.push(lit)) {
                            let (i, j) = choose|i: int, j: int|
                                0 <= i < cv.push(lit).len() && 0 <= j < cv.push(lit).len()
                                    && #[trigger] cv.push(lit)[j] == (#[trigger] cv.push(
                                    lit,
                                )[i]).complement();
                            if i < cv.len() && j < cv.len() {
                                assert(cv[j] == cv[i].complement());
                                assert(clause_tautological(cv));
                            } else if i == cv.len() && j == cv.len() {
                                assert(lit == lit.complement());
                            } else if i == cv.len() {
                                assert(cv[j] == lit.complement());
                            } else {
                                assert(j == cv.len());
                                assert(lit == cv[i].complement());
                                assert(cv[i] == lit.complement());
                            }
                            assert(false);
                        }
                    }
                    cur.add(lit);
                }
            }
        }
        let (ts, te) = next_token(input, pos, len);
        if ts < te {
            return Err(ParseError::TooManyClauses);
        }
        proof {
            assert(spec_parse_clauses(
                s,
                pos as int,
                num_vars as int,
                0,
                cur@,
                dropping,
            ) == Ok::<(Seq<Seq<Literal>>, int), ParseError>((Seq::empty(), pos as int)));
            assert(no_token_after(s, pos as int));
            assert(clause_views(formula.clauses@) + Seq::<Seq<Literal>>::empty() =~= clause_views(
                formula.clauses@,
            ));
            lemma_building_wf(formula);
        }
        Ok(formula)
    }
}

} // verus!

verus! {

/// The first position at or past `i` (and below `limit`) holding a
/// non-whitespace byte, or `limit`.
pub open spec fn skip_space(s: Seq<u8>, i: int, limit: int) -> int
    decreases limit - i,
{
    if i < limit && is_space_spec(s[i]) {
        skip_space(s, i + 1, limit)
    } else {
        i
    }
}

/// The end of the token starting at `i`: the first position at or past `i`
/// (and below `limit`) holding whitespace, or `limit`.
pub open spec fn scan_token(s: Seq<u8>, i: int, limit: int) -> int
    decreases limit - i,
{
    if i < limit && !is_space_spec(s[i]) {
        scan_token(s, i + 1, limit)
    } else {
        i
    }
}

pub proof fn lemma_skip_space_bounds(s: Seq<u8>, i: int, limit: int)
    ensures
        i <= skip_space(s, i, limit),
        i <= limit ==> skip_space(s, i, limit) <= limit,
    decreases limit - i,
{
    if i < limit && is_space_spec(s[i]) {
        lemma_skip_space_bounds(s, i + 1, limit);
    }
}

pub proof fn lemma_scan_token_bounds(s: Seq<u8>, i: int, limit: int)
    ensures
        i <= scan_token(s, i, limit),
        i <= limit ==> scan_token(s, i, limit) <= limit,
    decreases limit - i,
{
    if i < limit && !is_space_spec(s[i]) {
        lemma_scan_token_bounds(s, i + 1, limit);
    }
}

/// No token remains at or past `i`: only whitespace to the end.
pub open spec fn no_token_after(s: Seq<u8>, i: int) -> bool {
    skip_space(s, i, s.len() as int) == s.len()
}

/// Every byte of `s[i..end)` is a decimal digit.
pub open spec fn all_digits(s: Seq<u8>, i: int, end: int) -> bool {
    forall|j: int| i <= j < end ==> 48 <= #[trigger] s[j] <= 57
}

/// The value of the decimal digits `s[i..end)`.
pub open spec fn digits_value(s: Seq<u8>, i: int, end: int) -> int
    decreases end - i,
{
    if i >= end {
        0
    } else {
        digits_value(s, i, end - 1) * 10 + (s[end - 1] - 48)
    }
}

pub proof fn lemma_digits_nonneg(s: Seq<u8>, a: int, b: int)
    requires
        all_digits(s, a, b),
    ensures
        digits_value(s, a, b) >= 0,
    decreases b - a,
{
    if a < b {
        lemma_digits_nonneg(s, a, b - 1);
    }
}

/// Reading more digits never shrinks the value.
pub proof fn lemma_digits_value_le(s: Seq<u8>, a: int, b: int, c: int)
    requires
        a <= b <= c,
        all_digits(s, a, c),
    ensures
        digits_value(s, a, b) <= digits_value(s, a, c),
    decreases c - b,
{
    if b < c {
        lemma_digits_value_le(s, a, b, c - 1);
        lemma_digits_nonneg(s, a, c - 1);
    }
}

/// The end of the line starting at or containing position `i`.
pub open spec fn line_end(s: Seq<u8>, i: int) -> int
    decreases s.len() - i,
{
    if i < s.len() && s[i] != 10 {
        line_end(s, i + 1)
    } else {
        i
    }
}

/// The start of the first line at or past `i` that is not a comment, or the
/// input's length when every remaining line is one.
pub open spec fn problem_line_start(s: Seq<u8>, i: int) -> int
    decreases s.len() - i,
{
    if i >= s.len() {
        s.len() as int
    } else if line_end(s, i) > i && s[i] == 99 {
        if line_end(s, i) + 1 <= s.len() {
            problem_line_start(s, line_end(s, i) + 1)
        } else {
            s.len() as int
        }
    } else {
        i
    }
}

/// The clause section of the text, from position `pos` on, with `todo`
/// clauses still owed: the retained (non-tautological) clauses and the
/// position after the last terminator, or the §7 failure. `cur` and
/// `dropping` carry the clause under construction and whether it turned out
/// tautological.
pub open spec fn spec_parse_clauses(
    s: Seq<u8>,
    pos: int,
    num_vars: int,
    todo: int,
    cur: Seq<Literal>,
    dropping: bool,
) -> Result<(Seq<Seq<Literal>>, int), ParseError>
    decreases s.len() - pos, todo + 1,
    via spec_parse_clauses_dec
{
    if todo <= 0 {
        Ok((Seq::empty(), pos))
    } else {
        let ts = skip_space(s, pos, s.len() as int);
        let te = scan_token(s, ts, s.len() as int);
        if ts >= te {
            Err(ParseError::NotEnoughClauses)
        } else {
            let negated = s[ts] == 45;
            let mstart = if negated {
                ts + 1
            } else {
                ts
            };
            if !(mstart < te && all_digits(s, mstart, te) && digits_value(s, mstart, te)
                <= u64::MAX) {
                Err(ParseError::IllegalVariable)
            } else {
                let magnitude = digits_value(s, mstart, te);
                if magnitude == 0 {
                    if negated {
                        Err(ParseError::IllegalVariable)
                    } else if dropping {
                        spec_parse_clauses(s, te, num_vars, todo - 1, Seq::empty(), false)
                    } else {
                        match spec_parse_clauses(s, te, num_vars, todo - 1, Seq::empty(), false) {
                            Ok(rest) => Ok((seq![cur] + rest.0, rest.1)),
                            Err(e) => Err(e),
                        }
                    }
                } else if dropping {
                    spec_parse_clauses(s, te, num_vars, todo, cur, true)
                } else if magnitude > num_vars {
                    Err(ParseError::VariableOutOfRange)
                } else {
                    let lit = Literal { id: (magnitude - 1) as usize, negated };
                    if clause_has_lit(cur, lit.complement()) {
                        spec_parse_clauses(s, te, num_vars, todo, Seq::empty(), true)
                    } else {
                        spec_parse_clauses(s, te, num_vars, todo, cur.push(lit), false)
                    }
                }
            }
        }
    }
}

#[via_fn]
proof fn spec_parse_clauses_dec(
    s: Seq<u8>,
    pos: int,
    num_vars: int,
    todo: int,
    cur: Seq<Literal>,
    dropping: bool,
) {
    lemma_skip_space_bounds(s, pos, s.len() as int);
    lemma_scan_token_bounds(s, skip_space(s, pos, s.len() as int), s.len() as int);
}

/// The views of a clause list.
pub open spec fn clause_views(cs: Seq<Clause>) -> Seq<Seq<Literal>> {
    cs.map_values(|c: Clause| c@)
}

/// What the text denotes, read exactly as §6 gives the format: comment
/// lines, then the four-token problem line `p cnf <num_vars> <num_clauses>`,
/// then exactly `num_clauses` zero-terminated clauses (tautological ones
/// dropped) and nothing but trailing whitespace; or the first §7 failure.
pub open spec fn spec_parse(s: Seq<u8>) -> Result<(int, Seq<Seq<Literal>>), ParseError> {
    let pls = problem_line_start(s, 0);
    if pls == s.len() {
        Err(ParseError::MissingProblemLine)
    } else {
        let le = line_end(s, pls);
        let s1 = skip_space(s, pls, le);
        let e1 = scan_token(s, s1, le);
        let s2 = skip_space(s, e1, le);
        let e2 = scan_token(s, s2, le);
        let s3 = skip_space(s, e2, le);
        let e3 = scan_token(s, s3, le);
        let s4 = skip_space(s, e3, le);
        let e4 = scan_token(s, s4, le);
        let s5 = skip_space(s, e4, le);
        let e5 = scan_token(s, s5, le);
        if s1 == e1 || s2 == e2 || s3 == e3 || s4 == e4 || s5 < e5 {
            Err(ParseError::WrongParameterCount)
        } else if !(e1 - s1 == 1 && s[s1] == 112) {
            Err(ParseError::NotProblemLine)
        } else if !(e2 - s2 == 3 && s[s2] == 99 && s[s2 + 1] == 110 && s[s2 + 2] == 102) {
            Err(ParseError::UnsupportedFormat)
        } else if !(all_digits(s, s3, e3) && 1 <= digits_value(s, s3, e3) <= usize::MAX) {
            Err(ParseError::BadVariableCount)
        } else if !(all_digits(s, s4, e4) && digits_value(s, s4, e4) <= usize::MAX) {
            Err(ParseError::BadClauseCount)
        } else {
            let num_vars = digits_value(s, s3, e3);
            let num_clauses = digits_value(s, s4, e4);
            match spec_parse_clauses(s, le, num_vars, num_clauses, Seq::empty(), false) {
                Ok(rest) => if no_token_after(s, rest.1) {
                    Ok((num_vars, rest.0))
                } else {
                    Err(ParseError::TooManyClauses)
                },
                Err(e) => Err(e),
            }
        }
    }
}

} // verus!
