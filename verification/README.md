# lod_cut

Level-of-detail cuts over paged splat trees, verified with Verus.

A scene is a set of trees. Each node stands for a splat, and its children for a finer version of
the same region. A *cut* is a choice of nodes that covers every tree completely and nothing twice.
The library finds cuts that fit a budget of nodes, and keeps them up to date.

## What is where

| module | what it holds |
| --- | --- |
| `scale` | pixel scales: single-precision values as bit patterns, compared but never computed with |
| `entry`, `heap` | frontier entries in one 64-bit word, and a max-heap of them |
| `asker` | a yes-or-no question with a record of its answers |
| `splat`, `tree_view` | nodes, and read-only views of paged trees |
| `hash` | the `ahash` collections, with contracts for the calls made on them |
| `forest` | forests, valid cuts, refining and coarsening |
| `traverse`, `traverse_laws`, `traverse_runs` | best-first traversal, which can be paused anywhere, and its laws: of a round, and of a whole run |
| `cut_model`, `cut*` | the incremental cut: a table of expanded nodes, numbered by chunk; what a caller is told of it; its laws, of one call and of any series of calls |
| `geometry` | the arithmetic that an incremental cut asks its caller for |
| `lod_state`, `lod_laws` | the trees a worker holds, their page tables, and who shares what |
| `lod_level`, `lod_query`, `query_laws` | one level of a tree; a whole traversal from arguments to packed result, and its laws |
| `synth`, `synth_laws` | synthetic trees for measuring and checking |

Floating-point arithmetic stays outside. Whoever calls the library hands in functions for it: the
pixel scale of a node, distances, bounds, angles. The contracts ask of such a function only that it
accepts everything and depends on its arguments alone.

`app/` holds the worker's bindings to JavaScript and the traversal benchmark.

## What is proved

- At every moment output and frontier of a traversal are together a valid cut, and a round only
  ever replaces a node by its children.
- Whether to stop is asked once before every round, and the first yes pauses the traversal.
- A traversal in any number of slices ends where one that runs through ends, and a traversal of
  the same trees with the same arguments always gives the same result.
- Over a run nothing that was put out is taken back, the number of nodes never falls, and every
  node that comes into the cut lies below one that leaves it.
- The number of nodes stays within the budget.
- Whatever is done with an incremental cut, in whatever order and while chunks come and go, it
  stays a valid cut without duplicates, its counters agree with it, and it asks to be packed
  exactly if it has changed or lost a chunk since it was packed.
- Taking a node back undoes expanding it, and expanding it again takes no more room.
- The cut does not depend on pages: moving chunks to other pages changes the packed indices only.
- Nodes that come with a page are found again where the page table says.
