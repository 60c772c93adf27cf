//! The configuration of a permutation instance: width, round counts, round keys
//! and mixing matrix, loaded from tables of hex-encoded field constants.
use vstd::prelude::*;
use vstd::string::StringSliceAdditionalSpecFns;
use crate::field::{Fe, group_order, le_value};

verus! {

/// The value of one hex digit, upper or lower case.
pub open spec fn hex_digit(c: u8) -> Option<nat> {
    if 48 <= c <= 57 {
        Some((c - 48) as nat)
    } else if 97 <= c <= 102 {
        Some((c - 87) as nat)
    } else if 65 <= c <= 70 {
        Some((c - 55) as nat)
    } else {
        None
    }
}

/// The text is 64 hex digits: one field constant.
pub open spec fn is_hex_constant(s: Seq<u8>) -> bool {
    s.len() == 64 && forall|i: int| 0 <= i < 64 ==> hex_digit(#[trigger] s[i]).is_some()
}

/// The 32 bytes that 64 hex digits spell, two digits per byte, high digit first.
pub open spec fn hex_bytes(s: Seq<u8>) -> Seq<u8> {
    Seq::new(32, |k: int| (16 * (hex_digit(s[2 * k])->0) + hex_digit(s[2 * k + 1])->0) as u8)
}

/// The field element that a hex constant denotes: its bytes read little-endian,
/// reduced modulo the group order.
pub open spec fn hex_value(s: Seq<u8>) -> nat {
    le_value(hex_bytes(s)) % group_order()
}

fn hex_digit_exec(c: u8) -> (r: Option<u8>)
    ensures
        match hex_digit(c) {
            Some(d) => r == Some(d as u8) && d < 16,
            None => r.is_none(),
        },
{
    if 48 <= c && c <= 57 {
        Some(c - 48)
    } else if 97 <= c && c <= 102 {
        Some(c - 87)
    } else if 65 <= c && c <= 70 {
        Some(c - 55)
    } else {
        None
    }
}

/// Decodes one hex constant into a field element; `None` if the text is not
/// 64 hex digits.
pub fn scalar_from_hex(s: &str) -> (r: Option<Fe>)
    ensures
        r.is_some() <==> is_hex_constant(s.spec_bytes()),
        r.is_some() ==> r->0.wf() && r->0.value() == hex_value(s.spec_bytes()),
{
    let b = s.as_bytes();
    if b.len() != 64 {
        return None;
    }
    let mut bytes: [u8; 32] = [0u8; 32];
    let mut k: usize = 0;
    while k < 32
        invariant
            0 <= k <= 32,
            b@ == s.spec_bytes(),
            b@.len() == 64,
            bytes@.len() == 32,
            forall|i: int| 0 <= i < 2 * k ==> hex_digit(#[trigger] b@[i]).is_some(),
            forall|j: int| 0 <= j < k ==> bytes@[j] == hex_bytes(b@)[j],
        decreases 32 - k,
    {
        let hi = hex_digit_exec(b[2 * k]);
        let lo = hex_digit_exec(b[2 * k + 1]);
        match (hi, lo) {
            (Some(h), Some(l)) => {
                bytes[k] = 16 * h + l;
                proof {
                    assert forall|i: int| 0 <= i < 2 * (k + 1) implies hex_digit(
                        #[trigger] b@[i],
                    ).is_some() by {
                        if i >= 2 * k {
                            assert(i == 2 * k || i == 2 * k + 1);
                        }
                    }
                }
            },
            _ => {
                assert(!is_hex_constant(s.spec_bytes())) by {
                    if hi.is_none() {
                        assert(hex_digit(b@[2 * k as int]).is_none());
                    } else {
                        assert(hex_digit(b@[2 * k + 1]).is_none());
                    }
                }
                return None;
            },
        }
        k = k + 1;
    }
    assert(bytes@ =~= hex_bytes(b@));
    Some(Fe::from_bytes_mod_order(bytes))
}

/// Why a parameter set could not be built.
#[derive(Clone, Copy, Debug, PartialEq, Eq, Structural)]
pub enum ParamsError {
    /// The round-key table holds fewer than `total_rounds * width` constants.
    NotEnoughRoundKeys,
    /// The width is zero or does not match the mixing-matrix table.
    WidthMismatch,
    /// A constant is not 64 hex digits.
    MalformedConstant,
}

/// Parameters of a permutation instance.
#[allow(non_snake_case)]
pub struct PoseidonParams {
    pub width: usize,
    /// Number of full S-box rounds at the beginning.
    pub full_rounds_beginning: usize,
    /// Number of full S-box rounds at the end.
    pub full_rounds_end: usize,
    /// Number of partial S-box rounds in the middle.
    pub partial_rounds: usize,
    pub round_keys: Vec<Fe>,
    pub MDS_matrix: Vec<Vec<Fe>>,
}

/// The values of a sequence of field elements.
pub open spec fn values(s: Seq<Fe>) -> Seq<nat> {
    s.map_values(|f: Fe| f.value())
}

/// Every element of the sequence is canonical.
pub open spec fn all_wf(s: Seq<Fe>) -> bool {
    forall|i: int| 0 <= i < s.len() ==> (#[trigger] s[i]).wf()
}

/// The values of a table of field elements.
pub open spec fn matrix_values(m: Seq<Vec<Fe>>) -> Seq<Seq<nat>> {
    m.map_values(|row: Vec<Fe>| values(row@))
}

/// The hex texts, as bytes, of a table of constants.
pub open spec fn texts(t: Seq<&str>) -> Seq<Seq<u8>> {
    t.map_values(|s: &str| s.spec_bytes())
}

/// The hex texts, as bytes, of a table of constants in rows.
pub open spec fn table_texts(t: Seq<Vec<&str>>) -> Seq<Seq<Seq<u8>>> {
    t.map_values(|row: Vec<&str>| texts(row@))
}

/// The error that building parameters of this width, needing `cap` round keys,
/// from these tables gives, in the order the checks are made: a zero width, too
/// few round keys, a malformed round key, a matrix table that is not
/// `width x width`, a malformed matrix entry. `None` where it succeeds.
pub open spec fn construction_error(
    width: int,
    cap: int,
    rc: Seq<Seq<u8>>,
    m: Seq<Seq<Seq<u8>>>,
) -> Option<ParamsError> {
    if width == 0 {
        Some(ParamsError::WidthMismatch)
    } else if cap > rc.len() {
        Some(ParamsError::NotEnoughRoundKeys)
    } else if exists|i: int| 0 <= i < cap && !is_hex_constant(#[trigger] rc[i]) {
        Some(ParamsError::MalformedConstant)
    } else if m.len() != width || exists|i: int| 0 <= i < width && (#[trigger] m[i]).len() != width {
        Some(ParamsError::WidthMismatch)
    } else if exists|i: int, j: int|
        0 <= i < width && 0 <= j < width && !is_hex_constant(#[trigger] m[i][j]) {
        Some(ParamsError::MalformedConstant)
    } else {
        None
    }
}

impl PoseidonParams {
    pub open spec fn total_rounds(&self) -> nat {
        (self.full_rounds_beginning + self.partial_rounds + self.full_rounds_end) as nat
    }

    /// The round-key schedule as field values.
    pub open spec fn keys(&self) -> Seq<nat> {
        values(self.round_keys@)
    }

    /// The mixing matrix as field values, row-major.
    pub open spec fn matrix(&self) -> Seq<Seq<nat>> {
        matrix_values(self.MDS_matrix@)
    }

    /// Positive width, a full key schedule, a square matrix, canonical entries.
    pub open spec fn wf(&self) -> bool {
        &&& self.width >= 1
        &&& self.round_keys@.len() == self.total_rounds() * self.width
        &&& all_wf(self.round_keys@)
        &&& self.MDS_matrix@.len() == self.width
        &&& forall|i: int|
            0 <= i < self.width ==> (#[trigger] self.MDS_matrix@[i])@.len() == self.width
                && all_wf(self.MDS_matrix@[i]@)
    }

    /// Whether the parameters are well formed: a positive width, exactly
    /// `total_rounds * width` round keys, a `width x width` matrix, and every
    /// constant canonical.
    pub fn is_well_formed(&self) -> (r: bool)
        ensures
            r == self.wf(),
    {
        let width = self.width;
        if width == 0 {
            return false;
        }
        let n_keys = self.round_keys.len();
        let cap = match self.full_rounds_beginning.checked_add(self.partial_rounds) {
            Some(a) => match a.checked_add(self.full_rounds_end) {
                Some(t) => t.checked_mul(width),
                None => None,
            },
            None => None,
        };
        let cap = match cap {
            Some(c) => c,
            None => {
                proof {
                    let t = self.total_rounds();
                    assert(t * width > usize::MAX) by (nonlinear_arith)
                        requires
                            t > usize::MAX || t * width > usize::MAX,
                            width >= 1,
                    ;
                }
                return false;
            },
        };
        if n_keys != cap {
            return false;
        }
        let mut i: usize = 0;
        while i < n_keys
            invariant
                n_keys == self.round_keys@.len(),
                0 <= i <= n_keys,
                forall|k: int| 0 <= k < i ==> (#[trigger] self.round_keys@[k]).wf(),
            decreases n_keys - i,
        {
            if !self.round_keys[i].is_canonical() {
                return false;
            }
            i = i + 1;
        }
        if self.MDS_matrix.len() != width {
            return false;
        }
        let mut i: usize = 0;
        while i < width
            invariant
                self.MDS_matrix@.len() == width,
                0 <= i <= width,
                forall|k: int|
                    0 <= k < i ==> (#[trigger] self.MDS_matrix@[k])@.len() == width && all_wf(
                        self.MDS_matrix@[k]@,
                    ),
            decreases width - i,
        {
            let row = &self.MDS_matrix[i];
            if row.len() != width {
                assert(self.MDS_matrix@[i as int]@.len() != width);
                return false;
            }
            let mut j: usize = 0;
            while j < width
                invariant
                    self.MDS_matrix@.len() == width,
                    0 <= i < width,
                    row@ == self.MDS_matrix@[i as int]@,
                    row@.len() == width,
                    0 <= j <= width,
                    forall|l: int| 0 <= l < j ==> (#[trigger] row@[l]).wf(),
                decreases width - j,
            {
                if !row[j].is_canonical() {
                    assert(!row@[j as int].wf());
                    return false;
                }
                j = j + 1;
            }
            i = i + 1;
        }
        true
    }

    /// The error, if any, that building parameters from these tables meets:
    /// callers test it before `new`, which asks that there is none.
    pub fn table_error(
        width: usize,
        full_rounds_beginning: usize,
        full_rounds_end: usize,
        partial_rounds: usize,
        round_consts: &Vec<&str>,
        mds_entries: &Vec<Vec<&str>>,
    ) -> (r: Option<ParamsError>)
        ensures
            r == construction_error(
                width as int,
                (full_rounds_beginning + partial_rounds + full_rounds_end) * width,
                texts(round_consts@),
                table_texts(mds_entries@),
            ),
    {
        match Self::load(
            width,
            full_rounds_beginning,
            full_rounds_end,
            partial_rounds,
            round_consts,
            mds_entries,
        ) {
            Ok(_) => None,
            Err(e) => Some(e),
        }
    }

    /// Builds the parameters from tables of hex constants: the first
    /// `total_rounds * width` entries of `round_consts` become the key schedule,
    /// `mds_entries` (`width` rows of `width` entries) the matrix. Tables that do
    /// not fit are a configuration fault that callers rule out first.
    pub fn new(
        width: usize,
        full_rounds_beginning: usize,
        full_rounds_end: usize,
        partial_rounds: usize,
        round_consts: &Vec<&str>,
        mds_entries: &Vec<Vec<&str>>,
    ) -> (p: PoseidonParams)
        requires
            construction_error(
                width as int,
                (full_rounds_beginning + partial_rounds + full_rounds_end) * width,
                texts(round_consts@),
                table_texts(mds_entries@),
            ).is_none(),
        ensures
            ({
                let cap = (full_rounds_beginning + partial_rounds + full_rounds_end) * width;
                let rc = texts(round_consts@);
                let m = table_texts(mds_entries@);
                &&& p.wf()
                &&& p.width == width
                &&& p.full_rounds_beginning == full_rounds_beginning
                &&& p.full_rounds_end == full_rounds_end
                &&& p.partial_rounds == partial_rounds
                &&& forall|i: int| 0 <= i < cap ==> #[trigger] p.keys()[i] == hex_value(rc[i])
                &&& forall|i: int, j: int|
                    0 <= i < width && 0 <= j < width ==> #[trigger] p.matrix()[i][j]
                        == hex_value(m[i][j])
            }),
    {
        match Self::load(
            width,
            full_rounds_beginning,
            full_rounds_end,
            partial_rounds,
            round_consts,
            mds_entries,
        ) {
            Ok(p) => p,
            Err(_) => {
                proof {
                    assert(false);
                }
                PoseidonParams {
                    width,
                    full_rounds_beginning,
                    full_rounds_end,
                    partial_rounds,
                    round_keys: Vec::new(),
                    MDS_matrix: Vec::new(),
                }
            },
        }
    }

    /// Loads the tables, or says why they do not fit: the first
    /// `total_rounds * width` entries of `round_consts` become the key schedule,
    /// `mds_entries` (which must be `width` rows of `width` entries) the matrix.
    fn load(
        width: usize,
        full_rounds_beginning: usize,
        full_rounds_end: usize,
        partial_rounds: usize,
        round_consts: &Vec<&str>,
        mds_entries: &Vec<Vec<&str>>,
    ) -> (r: Result<PoseidonParams, ParamsError>)
        ensures
            ({
                let cap = (full_rounds_beginning + partial_rounds + full_rounds_end) * width;
                let rc = texts(round_consts@);
                let m = table_texts(mds_entries@);
                &&& r.is_ok() <==> construction_error(width as int, cap, rc, m).is_none()
                &&& r.is_err() ==> construction_error(width as int, cap, rc, m) == Some(r->Err_0)
                &&& r.is_ok() ==> {
                    let p = r->Ok_0;
                    &&& p.wf()
                    &&& p.width == width
                    &&& p.full_rounds_beginning == full_rounds_beginning
                    &&& p.full_rounds_end == full_rounds_end
                    &&& p.partial_rounds == partial_rounds
                    &&& forall|i: int| 0 <= i < cap ==> #[trigger] p.keys()[i] == hex_value(rc[i])
                    &&& forall|i: int, j: int|
                        0 <= i < width && 0 <= j < width ==> #[trigger] p.matrix()[i][j]
                            == hex_value(m[i][j])
                }
            }),
    {
        let ghost total = full_rounds_beginning + partial_rounds + full_rounds_end;
        let ghost rc = texts(round_consts@);
        let ghost m = table_texts(mds_entries@);
        if width == 0 {
            return Err(ParamsError::WidthMismatch);
        }
        let cap = match full_rounds_beginning.checked_add(partial_rounds) {
            Some(a) => match a.checked_add(full_rounds_end) {
                Some(t) => t.checked_mul(width),
                None => None,
            },
            None => None,
        };
        let n_consts = round_consts.len();
        let cap = match cap {
            Some(c) => c,
            None => {
                assert(total * width > usize::MAX) by (nonlinear_arith)
                    requires
                        total > usize::MAX || total * width > usize::MAX,
                        width >= 1,
                    ;
                assert(rc.len() == n_consts);
                return Err(ParamsError::NotEnoughRoundKeys);
            },
        };
        if n_consts < cap {
            assert(rc.len() == n_consts);
            return Err(ParamsError::NotEnoughRoundKeys);
        }
        let mut round_keys: Vec<Fe> = Vec::new();
        let mut i: usize = 0;
        while i < cap
            invariant
                cap == total * width,
                total == full_rounds_beginning + partial_rounds + full_rounds_end,
                cap <= round_consts@.len(),
                rc == texts(round_consts@),
                m == table_texts(mds_entries@),
                0 <= i <= cap,
                round_keys@.len() == i,
                all_wf(round_keys@),
                forall|k: int| 0 <= k < i ==> is_hex_constant(#[trigger] rc[k]),
                forall|k: int| 0 <= k < i ==> #[trigger] round_keys@[k].value() == hex_value(rc[k]),
            decreases cap - i,
        {
            match scalar_from_hex(round_consts[i]) {
                Some(f) => {
                    round_keys.push(f);
                },
                None => {
                    assert(!is_hex_constant(rc[i as int]));
                    return Err(ParamsError::MalformedConstant);
                },
            }
            i = i + 1;
        }
        if mds_entries.len() != width {
            assert(m.len() != width);
            return Err(ParamsError::WidthMismatch);
        }
        let mut i: usize = 0;
        while i < width
            invariant
                rc == texts(round_consts@),
                m == table_texts(mds_entries@),
                cap == total * width,
                total == full_rounds_beginning + partial_rounds + full_rounds_end,
                cap <= rc.len(),
                forall|k: int| 0 <= k < cap ==> is_hex_constant(#[trigger] rc[k]),
                mds_entries@.len() == width,
                0 <= i <= width,
                forall|k: int| 0 <= k < i ==> (#[trigger] mds_entries@[k])@.len() == width,
            decreases width - i,
        {
            if mds_entries[i].len() != width {
                assert(m[i as int].len() != width);
                return Err(ParamsError::WidthMismatch);
            }
            i = i + 1;
        }
        let mut mds: Vec<Vec<Fe>> = Vec::new();
        let mut i: usize = 0;
        while i < width
            invariant
                rc == texts(round_consts@),
                m == table_texts(mds_entries@),
                cap == total * width,
                total == full_rounds_beginning + partial_rounds + full_rounds_end,
                cap <= rc.len(),
                forall|k: int| 0 <= k < cap ==> is_hex_constant(#[trigger] rc[k]),
                width >= 1,
                mds_entries@.len() == width,
                forall|k: int| 0 <= k < width ==> (#[trigger] mds_entries@[k])@.len() == width,
                0 <= i <= width,
                mds@.len() == i,
                forall|k: int| 0 <= k < i ==> (#[trigger] mds@[k])@.len() == width && all_wf(mds@[k]@),
                forall|k: int, j: int|
                    0 <= k < i && 0 <= j < width ==> is_hex_constant(
                        #[trigger] mds_entries@[k]@[j].spec_bytes(),
                    ),
                forall|k: int, j: int|
                    0 <= k < i && 0 <= j < width ==> #[trigger] mds@[k]@[j].value() == hex_value(
                        mds_entries@[k]@[j].spec_bytes(),
                    ),
            decreases width - i,
        {
            let mut row: Vec<Fe> = Vec::new();
            let mut j: usize = 0;
            while j < width
                invariant
                    rc == texts(round_consts@),
                    m == table_texts(mds_entries@),
                    cap == total * width,
                total == full_rounds_beginning + partial_rounds + full_rounds_end,
                    cap <= rc.len(),
                    forall|k: int| 0 <= k < cap ==> is_hex_constant(#[trigger] rc[k]),
                    forall|k: int| 0 <= k < width ==> (#[trigger] mds_entries@[k])@.len() == width,
                    forall|k: int, l: int|
                        0 <= k < i && 0 <= l < width ==> is_hex_constant(#[trigger] m[k][l]),
                    mds_entries@.len() == width,
                    0 <= i < width,
                    mds_entries@[i as int]@.len() == width,
                    0 <= j <= width,
                    row@.len() == j,
                    all_wf(row@),
                    forall|l: int| 0 <= l < j ==> is_hex_constant(
                        #[trigger] mds_entries@[i as int]@[l].spec_bytes(),
                    ),
                    forall|l: int| 0 <= l < j ==> #[trigger] row@[l].value() == hex_value(
                        mds_entries@[i as int]@[l].spec_bytes(),
                    ),
                decreases width - j,
            {
                match scalar_from_hex(mds_entries[i][j]) {
                    Some(f) => {
                        row.push(f);
                    },
                    None => {
                        assert(m[i as int][j as int] == mds_entries@[i as int]@[j as int].spec_bytes());
                        assert(m.len() == width);
                        assert forall|k: int| 0 <= k < width implies (#[trigger] m[k]).len() == width by {
                            assert(m[k] == texts(mds_entries@[k]@));
                        }
                        assert(!is_hex_constant(m[i as int][j as int]));
                        return Err(ParamsError::MalformedConstant);
                    },
                }
                j = j + 1;
            }
            mds.push(row);
            i = i + 1;
        }
        assert(forall|k: int| 0 <= k < cap ==> #[trigger] values(round_keys@)[k] == round_keys@[k].value());
        let p = PoseidonParams {
            width,
            full_rounds_beginning,
            full_rounds_end,
            partial_rounds,
            round_keys,
            MDS_matrix: mds,
        };
        Ok(p)
    }
}

} // verus!
