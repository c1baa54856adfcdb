# crab-remote-git

The rules of a filesystem-free, generation-pinned Git reader, written and proved
in Verus.

A repository handle is pinned to one manifest generation, one pack inventory and
one exact locator coverage. The rules that the reader applies to repository
metadata and to decoded Git objects are in `src/`: functions on plain values and
small state machines. A machine names the next object to read, takes the reply,
and ends with a result. Its contract says what the result is for every store that
agrees with the replies, and what is left to do after each reply. The program
around the library reads and decodes objects, brings stored metadata into the
library's plain values, charges work and watches for cancellation; `app/` is such
a program.

Work that can be cancelled looks at a `Cancellation`. For a token the answers are
open; for a `Settled` answer they are known, so a contract then says exactly when
the work stops. Work that needs memory says which request was refused; nothing is
refused that asks for nothing.

## Modules

| Module | What it holds |
| --- | --- |
| `limits`, `identity` | limits and identities, and when they are accepted |
| `refs`, `names`, `hex`, `inventory` | references and packs of a manifest |
| `open`, `repository`, `visibility` | the open handshake, the pinned handle, visibility proofs |
| `peel`, `reach` | tags to commits, and reachability from references |
| `snapshot` | what can be asked of one commit |
| `path`, `entry`, `directory` | paths, their lookup, and directory pages |
| `history`, `path_history`, `path_probe`, `commit_graph` | histories and the order of parents |
| `compare`, `archive`, `sort`, `nesting` | tree comparison and archives in path order |
| `lines`, `lcs`, `diff`, `blame` | text, differences and line attribution |
| `charge` | what each request costs |
| `model`, `oid`, `error`, `memory`, `cancel`, `id_map`, `replies` | shared values and their lemmas |

## Laws

Properties of more than one call are public proof functions beside the functions
they speak of. Among them: pages of a history, of a path's history and of a
directory continue without loss or repetition, and followed to their end they show
the whole; a commit graph changes the order of a history but never its commits; a
search visits near commits before deeper ones; a comparison reports only
differences, and the same ones from either side, sorted or not; an archive and its
stream show the same entries, and a failure ends the stream; where no tree repeats a
path, neither do a comparison and an archive, which list their paths in strictly
ascending order; every attributed commit lies on the first-parent chain and really
holds the line that is attributed to it; every pinned pack is listed once; identities
of different namespaces, placements or snapshots never hash the same bytes into a
cache key.

## What is trusted

A few outside functions are called through declared contracts:
`tokio_util::sync::CancellationToken::is_cancelled`,
`gix_hash::ObjectId::from_hex`, `blake3::Hasher` (`new`, `update`, `finalize`) and,
from the standard library, `str::from_utf8` and `Vec::try_reserve_exact`.
