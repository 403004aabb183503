# dada

The front and middle of a compiler for a small language with permissions, and one step of its
interpreter, verified with Verus.

- **Parsing** turns token trees into syntax trees that are held in tables. `grammar` is the grammar
  as a mathematical function, `layout` says how a tree is laid out in tables, and `parser` and
  `code_parser` do the work. `progress` and `spelling` hold what can be said of every parse: it
  moves forward, and the trees of a body without reports spell exactly its tokens.
- **Brewing** turns validated code (`validated`) into basic blocks (`bir`). `recipe` says what the
  result is; `brewery`, `cursor` and `brew` produce it. `growth` shows that brewing only adds and
  that its result is well-formed, `reach` that control only gets to blocks that were brewed to their
  end, and `writes` that on every path a value is stored once, and stored before it is returned.
- **Leasing** borrows an object of a running program (`machine`) by way of a place. `traversal`
  follows places to objects, `lease` lends them out and states what a lease keeps.

Deeply nested source is parsed on a stack that grows; `stack` states what is relied on there. It is
the only part whose contract is not proved.
