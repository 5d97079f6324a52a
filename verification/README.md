# nanofem

A finite element solver for time harmonic electromagnetic fields, with its core
verified in Verus.

nanofem solves the curl-curl equation for the electric field with first order
edge elements on tetrahedra and reports scattering parameters at lumped ports.
The mesh is a Gmsh file (version 2.2, ASCII); a small text deck maps its physical
groups to materials, boundaries and ports.

## Layout

| Where | What |
|---|---|
| `src/` | the verified library |
| `app/` | the program: files, threads, double precision, printing |
| `tests/` | closed form models and unit tests |

The library runs on any number type that implements `Scalar`. Its contracts say
which operations are applied to which operands; they hold with rounding. What the
results mean without rounding is stated over the real and complex numbers.

| Module | What it states |
|---|---|
| `text`, `page`, `msh`, `deck` | what is read from a deck and a mesh, and each way to refuse one |
| `groups`, `edges`, `ports` | roles and materials of groups, edges and their unknowns, port sheets |
| `element`, `assembly`, `profile`, `system` | element matrices, the assembled matrix and its places |
| `rcm`, `skyline`, `refine` | ordering, factorization and solution |
| `sweep`, `derived` | scattering parameters, fields, impedance, admittance, inductance |
| `scalar`, `fixed` | what is asked of a number type, and a fixed point type that has it |
| `exact`, `reals`, `complex` | arithmetic without rounding |
| `ldl`, `accuracy` | the factors multiply to the matrix, the solution solves the system |
| `whitney`, `loss`, `roots`, `network` | edge functions, loss mechanisms, square roots, reciprocity, impedance and admittance |
| `cards`, `sections` | what of a deck and of a mesh file counts, and what may stand around it |
| `isolated` | what one more isolated vertex does to the ordering |
| `alike`, `idle`, `reversal`, `outcome` | models that come to the same, what a reversed port changes, and reciprocity of the results |

## Deck

One card per line, `*` starts a comment.

| Card | Meaning |
|---|---|
| `mesh <path>` | mesh file, relative to the deck |
| `mat <group> eps <er> [tand <d>] [mur <mr>] [sigma <s>]` | material of a volume group |
| `pec <group> ...` | perfect electric conductors |
| `abc <group> ...` | first order absorbing boundaries |
| `metal <group> <sigma>` | lossy conductor sheet |
| `pml <group> <ax> <ay> <az>` | imaginary coordinate stretch per axis |
| `port <n> <group> <jx> <jy> <jz> <z0>` | lumped port |
| `sweep lin <f0> <f1> <npoints>` | frequencies in Hz |
| `output <s\|z\|y\|lq>` | what to print, default `s` |
| `field <path> <f>` | field snapshot with port 1 driven, legacy VTK |

Volume groups without a `mat` card are vacuum, surfaces without a role are magnetic
walls.
