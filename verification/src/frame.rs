//! The rack's slot geometry: fifteen slots in five rows, apex first, indexed in canonical order.

use vstd::prelude::*;
use vstd::string::StringSliceAdditionalSpecFns;
use crate::text::{decimal, digit_char, digits_value, parse_u8, parse_u8_spec, push_char, push_decimal, u8_digit_run};

verus! {

/// A rack slot: `row` 1..=5 (apex first, at the foot spot), `index` 0..row within the row,
/// ascending from the y-negative end.
#[derive(Debug, Clone, Copy, PartialEq, Eq, Structural)]
pub struct Slot {
    /// Row number, 1 (apex) through 5 (back row).
    pub row: u8,
    /// In-row index, `0..row`, ascending from the y-negative end.
    pub index: u8,
}

/// The canonical index of the first slot of a row (rows 1..=5).
pub open spec fn row_base(row: int) -> int {
    if row == 1 {
        0
    } else if row == 2 {
        1
    } else if row == 3 {
        3
    } else if row == 4 {
        6
    } else {
        10
    }
}

/// The row holding canonical index `i`; every index from 10 on falls in row 5.
pub open spec fn row_of_index(i: int) -> int {
    if i == 0 {
        1
    } else if i <= 2 {
        2
    } else if i <= 5 {
        3
    } else if i <= 9 {
        4
    } else {
        5
    }
}

/// The slot at canonical index `i` (rows in order, in-row index ascending).
pub open spec fn slot_at(i: int) -> Slot {
    let row = row_of_index(i);
    Slot { row: row as u8, index: (i - row_base(row)) as u8 }
}

/// The squared distance between two slot centres, in units of the squared ball radius: rows are
/// `√3·R` apart along x and neighbouring in-row slots `2R` apart along y.
pub open spec fn lattice_dist2(a: Slot, b: Slot) -> int {
    let dr = b.row - a.row;
    let dy = 2 * (b.index - a.index) - dr;
    3 * (dr * dr) + dy * dy
}

/// The `r.i` spelling of a slot.
pub open spec fn label_spec(s: Slot) -> Seq<char> {
    decimal(s.row as nat) + seq!['.'] + decimal(s.index as nat)
}

/// Is position `k` of `s` the first `.`?
pub open spec fn first_dot_at(s: Seq<u8>, k: int) -> bool {
    0 <= k < s.len() && s[k] == 46 && forall|j: int| 0 <= j < k ==> s[j] != 46
}

/// The reading of an `r.i` label: split at the first `.`, parse both parts as `u8`, and accept a
/// row 1..=5 with an index below the row.
pub open spec fn parse_label_spec(s: Seq<u8>, k: int) -> Option<Slot> {
    match (parse_u8_spec(s.subrange(0, k)), parse_u8_spec(s.subrange(k + 1, s.len() as int))) {
        (Some(row), Some(index)) => if row == 0 || row > 5 || index >= row {
            None
        } else {
            Some(Slot { row, index })
        },
        _ => None,
    }
}

/// The neighbour list of a slot, in the order it is produced: in-row neighbours, the two slots of
/// the next row, then the slots of the row above.
pub open spec fn neighbour_seq(s: Slot) -> Seq<Slot> {
    let (row, index) = (s.row, s.index);
    let a: Seq<Slot> = if index > 0 {
        seq![Slot { row, index: (index - 1) as u8 }]
    } else {
        seq![]
    };
    let b: Seq<Slot> = if index + 1 < row {
        seq![Slot { row, index: (index + 1) as u8 }]
    } else {
        seq![]
    };
    let c: Seq<Slot> = if row < 5 {
        seq![Slot { row: (row + 1) as u8, index }, Slot { row: (row + 1) as u8, index: (index + 1) as u8 }]
    } else {
        seq![]
    };
    let d: Seq<Slot> = if row > 1 && index > 0 {
        seq![Slot { row: (row - 1) as u8, index: (index - 1) as u8 }]
    } else {
        seq![]
    };
    let e: Seq<Slot> = if row > 1 && index < row - 1 {
        seq![Slot { row: (row - 1) as u8, index }]
    } else {
        seq![]
    };
    a + b + c + d + e
}

impl Slot {
    /// A slot is well formed when its row is 1..=5 and its index lies below the row number.
    pub open spec fn wf(self) -> bool {
        1 <= self.row <= 5 && self.index < self.row
    }

    /// The canonical index of a slot.
    pub open spec fn canonical(self) -> int {
        row_base(self.row as int) + self.index
    }

    /// A slot from its parts; `row` is 1..=5 and `index < row`.
    pub fn new(row: u8, index: u8) -> (s: Self)
        requires
            1 <= row <= 5,
            index < row,
        ensures
            s.row == row,
            s.index == index,
            s.wf(),
    {
        Slot { row, index }
    }

    /// The canonical slot index, 0..15: rows in order, in-row index ascending.
    pub fn canonical_index(self) -> (r: usize)
        requires
            1 <= self.row <= 5,
        ensures
            r == self.canonical(),
    {
        let base: usize = if self.row == 1 {
            0
        } else if self.row == 2 {
            1
        } else if self.row == 3 {
            3
        } else if self.row == 4 {
            6
        } else {
            10
        };
        base + self.index as usize
    }

    /// The slot at a canonical index; indices from 15 on land in row 5.
    pub fn from_canonical_index(index: usize) -> (s: Self)
        ensures
            s == slot_at(index as int),
            index < 15 ==> s.wf() && s.canonical() == index,
    {
        let (row, base): (u8, usize) = if index == 0 {
            (1, 0)
        } else if index <= 2 {
            (2, 1)
        } else if index <= 5 {
            (3, 3)
        } else if index <= 9 {
            (4, 6)
        } else {
            (5, 10)
        };
        Slot { row, index: (index - base) as u8 }
    }

    /// The `r.i` spelling the corpora use (for example `5.4`).
    pub fn label(self) -> (s: String)
        ensures
            s@ == label_spec(self),
    {
        let mut s = String::new();
        push_decimal(&mut s, self.row as u64);
        push_char(&mut s, '.');
        push_decimal(&mut s, self.index as u64);
        assert(s@ =~= label_spec(self));
        s
    }

    /// Parse the corpora's `r.i` spelling: the text before the first `.` is the row and the text
    /// after it the index, each in the grammar of `u8::from_str`.
    pub fn parse(label: &str) -> (r: Option<Self>)
        ensures
            (forall|k: int| !first_dot_at(label.spec_bytes(), k)) ==> r is None,
            forall|k: int| first_dot_at(label.spec_bytes(), k) ==> r == parse_label_spec(label.spec_bytes(), k),
    {
        let bytes = label.as_bytes();
        let n = bytes.len();
        let mut k: usize = 0;
        while k < n && bytes[k] != 46
            invariant
                k <= n == bytes@.len(),
                bytes@ == label.spec_bytes(),
                forall|j: int| 0 <= j < k ==> bytes@[j] != 46,
            decreases n - k,
        {
            k = k + 1;
        }
        if k == n {
            assert forall|k2: int| !first_dot_at(label.spec_bytes(), k2) by {
                if first_dot_at(label.spec_bytes(), k2) {
                    assert(bytes@[k2] != 46);
                }
            }
            return None;
        }
        assert(first_dot_at(bytes@, k as int));
        assert forall|k2: int| first_dot_at(label.spec_bytes(), k2) implies k2 == k by {
            if k2 < k {
                assert(bytes@[k2] != 46);
            } else if k2 > k {
                assert(bytes@[k as int] == 46);
            }
        }
        let row = parse_u8(bytes, 0, k);
        let index = parse_u8(bytes, k + 1, n);
        match (row, index) {
            (Some(row), Some(index)) => {
                if row == 0 || row > 5 || index >= row {
                    None
                } else {
                    Some(Slot { row, index })
                }
            },
            _ => None,
        }
    }

    /// The slots adjacent to this one in the exact-contact lattice: in-row neighbours, the two
    /// slots of the next row, and the touching slots of the row above.
    pub fn neighbours(self) -> (out: Vec<Self>)
        requires
            self.index < 255,
        ensures
            out@ == neighbour_seq(self),
    {
        let mut out: Vec<Slot> = Vec::new();
        let (row, index) = (self.row, self.index);
        let ghost s = self;
        if index > 0 {
            out.push(Slot { row, index: index - 1 });
        }
        let ghost a = out@;
        if index + 1 < row {
            out.push(Slot { row, index: index + 1 });
        }
        let ghost ab = out@;
        if row < 5 {
            out.push(Slot { row: row + 1, index });
            out.push(Slot { row: row + 1, index: index + 1 });
        }
        let ghost abc = out@;
        if row > 1 {
            if index > 0 {
                out.push(Slot { row: row - 1, index: index - 1 });
            }
            if index < row - 1 {
                out.push(Slot { row: row - 1, index });
            }
        }
        assert(out@ =~= neighbour_seq(s));
        out
    }
}

/// Canonical indexing is a bijection between the fifteen well-formed slots and `0..15`.
pub proof fn canonical_index_is_a_bijection(s: Slot, i: int)
    ensures
        s.wf() ==> 0 <= s.canonical() < 15 && slot_at(s.canonical()) == s,
        0 <= i < 15 ==> slot_at(i).wf() && slot_at(i).canonical() == i,
{
}

/// Spelling a well-formed slot and reading the spelling back gives the slot.
pub proof fn label_round_trip(s: Slot)
    requires
        s.wf(),
    ensures
        first_dot_at(ascii_bytes(label_spec(s)), 1),
        parse_label_spec(ascii_bytes(label_spec(s)), 1) == Some(s),
{
    let l = label_spec(s);
    reveal_with_fuel(decimal, 2);
    assert(l =~= seq![digit_char(s.row as nat), '.', digit_char(s.index as nat)]);
    let b = ascii_bytes(l);
    assert(b.subrange(0, 1) =~= seq![(48 + s.row) as u8]);
    assert(b.subrange(2, 3) =~= seq![(48 + s.index) as u8]);
    let r = b.subrange(0, 1);
    let x = b.subrange(2, 3);
    assert(u8_digit_run(r) =~= r);
    assert(u8_digit_run(x) =~= x);
    assert(digits_value(r) == s.row as nat) by {
        assert(r.drop_last() =~= Seq::<u8>::empty());
        assert(digits_value(r.drop_last()) == 0);
    }
    assert(digits_value(x) == s.index as nat) by {
        assert(x.drop_last() =~= Seq::<u8>::empty());
        assert(digits_value(x.drop_last()) == 0);
    }
}

/// The bytes of an ASCII character sequence.
pub open spec fn ascii_bytes(cs: Seq<char>) -> Seq<u8> {
    Seq::new(cs.len(), |i: int| cs[i] as u8)
}

proof fn lemma_unit_steps(dr: int, di: int)
    requires
        3 * (dr * dr) + (2 * di - dr) * (2 * di - dr) == 4,
    ensures
        (dr == 0 && (di == 1 || di == -1)) || (dr == 1 && (di == 0 || di == 1)) || (dr == -1 && (di
            == 0 || di == -1)),
{
    let dy = 2 * di - dr;
    assert(dy * dy >= 0) by (nonlinear_arith);
    if dr >= 2 || dr <= -2 {
        assert(dr * dr >= 4) by (nonlinear_arith)
            requires
                dr >= 2 || dr <= -2,
        ;
    }
    assert(-1 <= dr <= 1);
    assert(dr * dr == 0 || dr * dr == 1) by (nonlinear_arith)
        requires
            -1 <= dr <= 1,
    ;
    if dy >= 3 || dy <= -3 {
        assert(dy * dy >= 9) by (nonlinear_arith)
            requires
                dy >= 3 || dy <= -3,
        ;
    }
    assert(-2 <= dy <= 2);
    if dr == 0 {
        assert(dy * dy == 4);
        assert(dy == 2 || dy == -2) by (nonlinear_arith)
            requires
                -2 <= dy <= 2,
                dy * dy == 4,
        ;
    } else {
        assert(dr * dr == 1) by (nonlinear_arith)
            requires
                dr == 1 || dr == -1,
        ;
        assert(dy * dy == 1);
        assert(dy == 1 || dy == -1) by (nonlinear_arith)
            requires
                -2 <= dy <= 2,
                dy * dy == 1,
        ;
    }
}

/// The contact lattice: every neighbour of a well-formed slot is a well-formed slot whose centre
/// is exactly `2R` away, and every well-formed slot `2R` away is a neighbour.
#[verifier::spinoff_prover]
pub proof fn neighbours_are_exactly_the_slots_two_radii_away(s: Slot, t: Slot)
    requires
        s.wf(),
    ensures
        neighbour_seq(s).contains(t) ==> t.wf() && lattice_dist2(s, t) == 4,
        t.wf() && lattice_dist2(s, t) == 4 ==> neighbour_seq(s).contains(t),
{
    let n = neighbour_seq(s);
    if n.contains(t) {
        let (row, index) = (s.row, s.index);
        let a: Seq<Slot> = if index > 0 {
            seq![Slot { row, index: (index - 1) as u8 }]
        } else {
            seq![]
        };
        let b: Seq<Slot> = if index + 1 < row {
            seq![Slot { row, index: (index + 1) as u8 }]
        } else {
            seq![]
        };
        let c: Seq<Slot> = if row < 5 {
            seq![Slot { row: (row + 1) as u8, index }, Slot { row: (row + 1) as u8, index: (index + 1) as u8 }]
        } else {
            seq![]
        };
        let d: Seq<Slot> = if row > 1 && index > 0 {
            seq![Slot { row: (row - 1) as u8, index: (index - 1) as u8 }]
        } else {
            seq![]
        };
        let e: Seq<Slot> = if row > 1 && index < row - 1 {
            seq![Slot { row: (row - 1) as u8, index }]
        } else {
            seq![]
        };
        assert(n =~= a + b + c + d + e);
        if index > 0 {
            let u = a[0];
            assert(u.index == index - 1);
            assert(lattice_dist2(s, u) == 3 * (0 * 0) + (-2) * (-2));
        }
        if index + 1 < row {
            let u = b[0];
            assert(u.index == index + 1);
            assert(lattice_dist2(s, u) == 3 * (0 * 0) + 2 * 2);
        }
        if row < 5 {
            let u = c[0];
            let v = c[1];
            assert(u.row == row + 1 && u.index == index);
            assert(v.row == row + 1 && v.index == index + 1);
            assert(lattice_dist2(s, u) == 3 * (1 * 1) + (-1) * (-1));
            assert(lattice_dist2(s, v) == 3 * (1 * 1) + 1 * 1);
        }
        if row > 1 && index > 0 {
            let u = d[0];
            assert(u.row == row - 1 && u.index == index - 1);
            assert(lattice_dist2(s, u) == 3 * ((-1) * (-1)) + (-1) * (-1));
        }
        if row > 1 && index < row - 1 {
            let u = e[0];
            assert(u.row == row - 1 && u.index == index);
            assert(lattice_dist2(s, u) == 3 * ((-1) * (-1)) + 1 * 1);
        }
        assert(forall|k: int| 0 <= k < a.len() ==> #[trigger] a[k].wf() && lattice_dist2(s, a[k]) == 4);
        assert(forall|k: int| 0 <= k < b.len() ==> #[trigger] b[k].wf() && lattice_dist2(s, b[k]) == 4);
        assert forall|k: int| 0 <= k < c.len() implies #[trigger] c[k].wf() && lattice_dist2(s, c[k]) == 4 by {
            if k == 0 {
                assert(c[k] == c[0]);
            } else {
                assert(c[k] == c[1]);
            }
        }
        assert forall|k: int| 0 <= k < d.len() implies #[trigger] d[k].wf() && lattice_dist2(s, d[k]) == 4 by {
            assert(d[k] == d[0]);
        }
        assert(forall|k: int| 0 <= k < e.len() ==> #[trigger] e[k].wf() && lattice_dist2(s, e[k]) == 4);
        let k = choose|k: int| 0 <= k < n.len() && n[k] == t;
        let ab = a + b;
        let abc = ab + c;
        let abcd = abc + d;
        if k < a.len() {
            assert(n[k] == a[k]);
        } else if k < ab.len() {
            assert(n[k] == b[k - a.len()]);
        } else if k < abc.len() {
            assert(n[k] == c[k - ab.len()]);
        } else if k < abcd.len() {
            assert(n[k] == d[k - abc.len()]);
        } else {
            assert(n[k] == e[k - abcd.len()]);
        }
    }
    if t.wf() && lattice_dist2(s, t) == 4 {
        let dr = t.row - s.row;
        let di = t.index - s.index;
        lemma_unit_steps(dr, di);
        let k: int = if dr == 0 && di == -1 {
            0
        } else if dr == 0 && di == 1 {
            if s.index > 0 { 1 } else { 0 }
        } else {
            let off: int = (if s.index > 0 { 1int } else { 0int }) + (if s.index + 1 < s.row { 1int } else { 0int });
            if dr == 1 && di == 0 {
                off
            } else if dr == 1 && di == 1 {
                off + 1
            } else if dr == -1 && di == -1 {
                off + (if s.row < 5 { 2int } else { 0int })
            } else {
                off + (if s.row < 5 { 2int } else { 0int }) + (if s.index > 0 { 1int } else { 0int })
            }
        };
        assert(n[k] == t);
    }
}

} // verus!
