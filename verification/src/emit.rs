//! Text fragments for the renderers, computed as bytes.
//!
//! The renderers themselves are external collaborators; the library computes
//! the pieces that have algebraic content: snake-case identifiers, basis
//! element names, and the human-readable Cayley table used as a structural
//! sanity check of the product rule.

use vstd::prelude::*;
use crate::algebra::BasisElement;
use crate::algebra::GeometricAlgebra;
use crate::algebra::product_fits;
use crate::algebra::sp_scalar;
use crate::algebra::sp_index;
use crate::bitops::bits_of;
use crate::product::blades_in_range;

verus! {

/// An upper-case ASCII letter.
pub open spec fn is_ascii_upper(c: char) -> bool {
    65 <= c as u32 <= 90
}

/// The byte of `c` with upper-case letters folded to lower case.
pub open spec fn lower_byte(c: char) -> u8 {
    if is_ascii_upper(c) {
        (c as u32 + 32) as u8
    } else {
        (c as u32) as u8
    }
}

/// Snake-case rendering from position `i` on: an underscore before each
/// upper-case letter except at the very beginning, all letters lowered.
pub open spec fn snake_from(s: Seq<char>, i: int) -> Seq<u8>
    decreases s.len() - i,
{
    if i < 0 || i >= s.len() {
        Seq::empty()
    } else {
        (if is_ascii_upper(s[i]) && i > 0 {
            seq![95u8]
        } else {
            Seq::empty()
        }) + seq![lower_byte(s[i])] + snake_from(s, i + 1)
    }
}

/// Converts a camel-case name to snake_case, inserting an underscore before
/// every upper-case letter except a leading one.
pub fn camel_to_snake_case(name: &str) -> (r: Vec<u8>)
    requires
        forall|k: int| 0 <= k < name@.len() ==> ((#[trigger] name@[k]) as u32) < 128,
    ensures
        r@ == snake_from(name@, 0),
{
    let len = name.unicode_len();
    let mut out: Vec<u8> = Vec::new();
    let mut i: usize = 0;
    while i < len
        invariant
            name@.len() == len,
            i <= len,
            forall|k: int| 0 <= k < name@.len() ==> ((#[trigger] name@[k]) as u32) < 128,
            snake_from(name@, 0) == out@ + snake_from(name@, i as int),
        decreases len - i,
    {
        let c = name.get_char(i);
        let u = c as u32;
        let ghost before = out@;
        if 65 <= u && u <= 90 {
            if i > 0 {
                out.push(95u8);
            }
            out.push((u + 32) as u8);
        } else {
            out.push(u as u8);
        }
        proof {
            let piece: Seq<u8> = (if is_ascii_upper(name@[i as int]) && i > 0 {
                seq![95u8]
            } else {
                Seq::empty()
            }) + seq![lower_byte(name@[i as int])];
            assert(out@ =~= before + piece);
            assert(snake_from(name@, i as int) == piece + snake_from(name@, i as int + 1));
            assert(before + (piece + snake_from(name@, i as int + 1)) =~= (before + piece)
                + snake_from(name@, i as int + 1));
        }
        i = i + 1;
    }
    proof {
        assert(snake_from(name@, len as int) =~= Seq::<u8>::empty());
        assert(out@ =~= snake_from(name@, 0));
    }
    out
}

/// Four spaces per indentation level.
pub fn emit_indentation(indentation: usize) -> (r: Vec<u8>)
    requires
        indentation <= usize::MAX / 4,
    ensures
        r@.len() == 4 * indentation,
        forall|k: int| 0 <= k < r@.len() ==> r@[k] == 32u8,
{
    let mut out: Vec<u8> = Vec::new();
    let mut i: usize = 0;
    while i < indentation
        invariant
            indentation <= usize::MAX / 4,
            i <= indentation,
            out@.len() == 4 * i,
            forall|k: int| 0 <= k < out@.len() ==> out@[k] == 32u8,
        decreases indentation - i,
    {
        out.push(32u8);
        out.push(32u8);
        out.push(32u8);
        out.push(32u8);
        i = i + 1;
    }
    out
}

/// The upper-case hexadecimal digit of a value below 16.
pub open spec fn hex_upper(p: nat) -> u8 {
    if p < 10 {
        (48 + p) as u8
    } else {
        (55 + p) as u8
    }
}

/// The field name of a basis element: `scalar` for the scalar blade, else
/// `e` (or `_e` for a negative blade) followed by the hexadecimal positions
/// of its generators.
pub open spec fn element_name_bytes(e: BasisElement) -> Seq<u8> {
    if e.index == 0 {
        seq![115u8, 99u8, 97u8, 108u8, 97u8, 114u8]
    } else {
        (if e.scalar < 0 {
            seq![95u8, 101u8]
        } else {
            seq![101u8]
        }) + bits_of(e.index as nat, 0).map_values(|p: nat| hex_upper(p))
    }
}

/// Emits the field name for a basis element.
pub fn emit_element_name(element: &BasisElement) -> (r: Vec<u8>)
    requires
        element.scalar != 0,
    ensures
        r@ == element_name_bytes(*element),
{
    if element.index == 0 {
        let mut out: Vec<u8> = Vec::new();
        out.push(115u8);
        out.push(99u8);
        out.push(97u8);
        out.push(108u8);
        out.push(97u8);
        out.push(114u8);
        proof {
            assert(out@ =~= element_name_bytes(*element));
        }
        return out;
    }
    let mut out: Vec<u8> = Vec::new();
    if element.scalar < 0 {
        out.push(95u8);
    }
    out.push(101u8);
    let ghost prefix = out@;
    let bits = element.component_bits();
    let ghost digits = bits_of(element.index as nat, 0).map_values(|p: nat| hex_upper(p));
    let mut i: usize = 0;
    proof {
        assert(bits@.map_values(|x: usize| x as nat) == bits_of(element.index as nat, 0));
        assert(digits.len() == bits@.len());
    }
    while i < bits.len()
        invariant
            i <= bits@.len(),
            digits == bits_of(element.index as nat, 0).map_values(|p: nat| hex_upper(p)),
            bits@.map_values(|x: usize| x as nat) == bits_of(element.index as nat, 0),
            forall|k: int| 0 <= k < bits@.len() ==> (#[trigger] bits@[k]) < 16,
            digits.len() == bits@.len(),
            out@ == prefix + digits.take(i as int),
        decreases bits@.len() - i,
    {
        let p = bits[i];
        proof {
            assert(bits_of(element.index as nat, 0)[i as int] == bits@[i as int] as nat);
            assert(digits[i as int] == hex_upper(bits@[i as int] as nat));
        }
        if p < 10 {
            out.push((48 + p) as u8);
        } else {
            out.push((55 + p) as u8);
        }
        proof {
            assert(prefix + digits.take(i as int + 1) =~= (prefix + digits.take(i as int)).push(
                digits[i as int],
            ));
        }
        i = i + 1;
    }
    proof {
        assert(digits.take(digits.len() as int) =~= digits);
        assert(out@ =~= element_name_bytes(*element));
    }
    out
}

/// The display form of a blade: `0` when the scalar vanished, `1` for the
/// scalar blade, else `e` and the generator digits, with a leading minus for
/// a negative scalar.
pub open spec fn display_bytes(e: BasisElement) -> Seq<u8> {
    if e.scalar == 0 {
        seq![48u8]
    } else {
        (if e.scalar < 0 {
            seq![45u8]
        } else {
            Seq::empty()
        }) + (if e.index == 0 {
            seq![49u8]
        } else {
            seq![101u8] + bits_of(e.index as nat, 0).map_values(|p: nat| hex_upper(p))
        })
    }
}

impl BasisElement {
    /// The human-readable signed rendering of the blade.
    pub fn display_name(&self) -> (r: Vec<u8>)
        ensures
            r@ == display_bytes(*self),
    {
        if self.scalar == 0 {
            let mut out: Vec<u8> = Vec::new();
            out.push(48u8);
            proof {
                assert(out@ =~= display_bytes(*self));
            }
            return out;
        }
        let mut out: Vec<u8> = Vec::new();
        if self.scalar < 0 {
            out.push(45u8);
        }
        if self.index == 0 {
            out.push(49u8);
            proof {
                assert(out@ =~= display_bytes(*self));
            }
            return out;
        }
        out.push(101u8);
        let ghost prefix = out@;
        let bits = self.component_bits();
        let ghost digits = bits_of(self.index as nat, 0).map_values(|p: nat| hex_upper(p));
        let mut i: usize = 0;
        proof {
            assert(bits@.map_values(|x: usize| x as nat) == bits_of(self.index as nat, 0));
            assert(digits.len() == bits@.len());
        }
        while i < bits.len()
            invariant
                i <= bits@.len(),
                digits == bits_of(self.index as nat, 0).map_values(|p: nat| hex_upper(p)),
                bits@.map_values(|x: usize| x as nat) == bits_of(self.index as nat, 0),
                forall|k: int| 0 <= k < bits@.len() ==> (#[trigger] bits@[k]) < 16,
                digits.len() == bits@.len(),
                out@ == prefix + digits.take(i as int),
            decreases bits@.len() - i,
        {
            let p = bits[i];
            proof {
                assert(bits_of(self.index as nat, 0)[i as int] == bits@[i as int] as nat);
                assert(digits[i as int] == hex_upper(bits@[i as int] as nat));
            }
            if p < 10 {
                out.push((48 + p) as u8);
            } else {
                out.push((55 + p) as u8);
            }
            proof {
                assert(prefix + digits.take(i as int + 1) =~= (prefix + digits.take(i as int)).push(
                    digits[i as int],
                ));
            }
            i = i + 1;
        }
        proof {
            assert(digits.take(digits.len() as int) =~= digits);
            assert(out@ =~= display_bytes(*self));
        }
        out
    }
}

/// The rendering of one Cayley-table cell: the signed blade of the product
/// of the column blade with the row blade, or `?` when the product leaves
/// the scalar representation.
pub open spec fn cayley_cell(a: BasisElement, b: BasisElement, alg: &GeometricAlgebra) -> Seq<u8> {
    if product_fits(a.scalar as int, a.index as nat, b.scalar as int, b.index as nat, alg.squares()) {
        display_bytes(
            BasisElement {
                scalar: sp_scalar(
                    a.scalar as int,
                    a.index as nat,
                    b.scalar as int,
                    b.index as nat,
                    alg.squares(),
                ) as i64,
                index: sp_index(a.index as nat, b.index as nat) as u16,
            },
        )
    } else {
        seq![63u8]
    }
}

/// The human-readable Cayley table over the given blade list (normally the
/// sorted basis): row `r`, column `c` holds the rendering of the product of
/// blade `c` with blade `r`.
pub fn cayley_table(algebra: &GeometricAlgebra, basis: &Vec<BasisElement>) -> (r: Vec<Vec<Vec<u8>>>)
    requires
        algebra.wf(),
        blades_in_range(basis@, algebra),
    ensures
        r@.len() == basis@.len(),
        forall|row: int| 0 <= row < r@.len() ==> (#[trigger] r@[row])@.len() == basis@.len(),
        forall|row: int, col: int|
            0 <= row < r@.len() && 0 <= col < basis@.len() ==> (#[trigger] (r@[row])@[col])@
                == cayley_cell(basis@[col], basis@[row], algebra),
{
    let mut table: Vec<Vec<Vec<u8>>> = Vec::new();
    let mut row: usize = 0;
    while row < basis.len()
        invariant
            algebra.wf(),
            blades_in_range(basis@, algebra),
            row <= basis@.len(),
            table@.len() == row,
            forall|r0: int| 0 <= r0 < row ==> (#[trigger] table@[r0])@.len() == basis@.len(),
            forall|r0: int, c0: int|
                0 <= r0 < row && 0 <= c0 < basis@.len() ==> (#[trigger] (table@[r0])@[c0])@
                    == cayley_cell(basis@[c0], basis@[r0], algebra),
        decreases basis@.len() - row,
    {
        let b = basis[row];
        let mut line: Vec<Vec<u8>> = Vec::new();
        let mut col: usize = 0;
        while col < basis.len()
            invariant
                algebra.wf(),
                blades_in_range(basis@, algebra),
                row < basis@.len(),
                b == basis@[row as int],
                col <= basis@.len(),
                line@.len() == col,
                forall|c0: int|
                    0 <= c0 < col ==> ((#[trigger] line@[c0])@) == cayley_cell(
                        basis@[c0],
                        basis@[row as int],
                        algebra,
                    ),
            decreases basis@.len() - col,
        {
            let a = basis[col];
            let cell = match BasisElement::try_product(&a, &b, algebra) {
                Some(p) => p.display_name(),
                None => {
                    let mut q: Vec<u8> = Vec::new();
                    q.push(63u8);
                    proof {
                        assert(q@ =~= seq![63u8]);
                    }
                    q
                },
            };
            proof {
                assert(cell@ == cayley_cell(basis@[col as int], basis@[row as int], algebra));
            }
            line.push(cell);
            col = col + 1;
        }
        table.push(line);
        row = row + 1;
    }
    table
}

} // verus!
