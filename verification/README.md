# thoughtgraph

Comments, replies and references as the nodes and edges of a graph. The library
draws such graphs in the DOT language of Graphviz and finds the shortest paths
between their nodes. It is written in Verus: every function states what it
returns, and the statement is proved. What is believed of the standard library
without proof is stated in `text` and `render`.

| Module | What it holds |
| --- | --- |
| `model` | nodes, edges, steps and paths, and what they hold |
| `label` | escaping text, and breaking labels into lines |
| `label_laws` | what holds of escaped text and of labels |
| `dot` | the drawing of a graph |
| `color` | the colors that paths are drawn in |
| `paths_dot` | the drawing of the paths that a search found |
| `quoting` | every quoted string in a drawing is closed |
| `search` | the search for the shortest paths |
| `walk` | the paths found are the shortest walks, and all of them |
| `turned` | a search the other way finds the same paths, turned round |
| `render` | file names, the search for `dot`, and what a run of it came to |
| `text` | numbers as text |

`app/` is ordinary Rust around the library: the database, files, and running
`dot`.
