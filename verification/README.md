# rustsoda

RustSoda looks for unbounded recursion in Rust programs: it builds the call
graph of a crate from the compiler's MIR and reports the elementary cycles of
that graph, each of which is a chain of functions that may call each other
without end.

The library in `src/` holds the logic, verified with Verus:

- `johnson_find_cycles/` finds the elementary cycles of a directed graph with
  Johnson's algorithm.
  - `strong_connected_components.rs` is Tarjan's search for the strongly
    connected components of the subgraph induced by the nodes from a given
    node on; `tarjan.rs` holds the invariant of that search and its proof,
    and `subgraph_components.rs` relates the components of the subgraphs to
    each other.
  - `elementary_cycles_search.rs` is the search for cycles itself, with the
    blocking lists that keep it from walking the same dead ends twice.
  - `graph.rs` models a graph as adjacency lists: walks, elementary cycles,
    induced subgraphs.
- `call_graph/` holds the call graph (functions numbered by their path, calls
  between them) and the rules that decide which calls a MIR terminator adds.
- `lib.rs` holds the command line handling: the verbosity flags, the sysroot
  and the flags handed to the compiler.

The main results proved:

- the cycles reported for a graph are exactly its elementary cycles, each
  written from its least node, leaving out a loop on a node that lies in no
  larger strongly connected component of the subgraph from that node; each is
  reported once for every way to follow it through the adjacency lists (so
  once when no successor is listed twice), by first node and then in the
  order of the positions of the successors followed; so a second full
  search appends the same list again;
- the search from one node finds every elementary cycle through it, and
  Tarjan's search from a node visits exactly the nodes reachable from it and
  records each component of more than one node among them once, with no
  edge from a component to one recorded after it;
- a search for walks back to a node from another node records only such
  walks, and leaves the blocked flags and lists in a state from which the
  next search may start;
- releasing a blocked node releases exactly the blocked nodes waiting on it;
- the component search returns the component of the least node, from the
  given node on, that has another node in its component, as the graph it
  induces, or nothing when there is none.

`app/` is the program around the library: the compiler driver and its
callbacks, the MIR visitor, logging and printing. It needs the compiler's
private crates (`rustc_driver`, `rustc_middle`, ...) to build.
