# scroll_tiling

The tiling layouts of a compositor's workspaces, verified with Verus. A workspace is tiled in one
of two ways:

- the tree layout splits the output into nested groups of windows;
- the scrolling layout keeps the same windows on a strip of columns that is wider than the output,
  of which a viewport is shown.

`src/` is the library. It takes and gives plain values: windows are records with an identity,
positions of pointers are the bits of floating-point numbers, times are milliseconds. An operation
returns what clients have to be asked for; a host performs that and hands back what it waits for.

| modules | what they hold |
| --- | --- |
| `units`, `doubles`, `geometry`, `actions`, `config` | numbers, areas, directions, settings |
| `data`, `tree`, `lineage`, `balance`, `copies`, `keys` | nodes, trees of nodes, and what keeps them in order |
| `surgery`, `moves`, `drops`, `graft`, `reshape`, `neighbours` | changes of a tree |
| `classic`, `placement`, `fitting`, `zones`, `lookups`, `focus` | areas in a tree, and what is found in it |
| `strip`, `columns`, `rows`, `viewport`, `reorder`, `scrolling` | the strip |
| `queue`, `layout` | the trees on the way, and a workspace |
| `mapping`, `unmapping`, `navigation`, `strip_actions`, `tree_actions`, `dragging`, `transfers`, `hover`, `pointer` | what is done to a workspace |
| `groupview`, `rendering` | overviews, and what is drawn |
| `laws`, `strip_laws`, `arrangement_laws`, `order_laws`, `viewport_laws` | what holds of the strip |
| `twins`, `tree_laws`, `extent_laws`, `exchange_laws`, `restore_laws`, `return_laws`, `span_laws`, `layout_laws` | what holds of trees and workspaces |

Trees are those of the `id_tree` crate. The functions of it that are called stand in `tree`, each
with the contract that it is trusted to keep.

`app/` is what a compositor puts around the library:

| files | what they hold |
| --- | --- |
| `desk`, `grabs`, `exchange` | a workspace with its clients and its clock, and what is done to it |
| `scene`, `easing` | what is drawn where, in floating point |
| `settings`, `edid` | settings and monitors as they are stored |
| `geometry` | the coordinates of the toolkit |
