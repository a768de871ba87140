# glaucus

A YAML toolkit whose answers are proved with [Verus](https://github.com/verus-lang/verus).

| Module | What it answers |
|---|---|
| `schema` | What type is this plain scalar? |
| `path`, `node` | What does a dotted path address in a tree? |
| `borrowed` | A tree that borrows from its source, and its owned counterpart |
| `stream::tape` | What does an event stream say once its aliases are expanded? |
| `stream::merge`, `stream::mapping` | Which entries does a mapping with `<<` merge keys have? |
| `stream::value`, `stream::scalar` | What does the next value say, and what comes after it? |

Every function states what it returns over a mathematical model of its arguments. What
holds of several functions together stands beside them in public proof functions named
`law_*`, for instance:

- an alias stands for the value it names, with the aliases in that value written out;
- however aliases multiply, a document grows by its budget at most, and the depth they
  introduce is bounded;
- reading a value off a stream gives what the tree says that a composer makes of the
  same events, aliases resolved and merge keys folded where they are on, as long as the
  tape reports no failure and every merge value can supply entries; a failure on the way,
  such as an undefined alias, refuses the value;
- a mapping has the entries it states itself, then the merged ones that nothing claims;
- a search finds each match once, in document order, and without a descent it agrees
  with a lookup.

The library does not read YAML text. It takes a parser's events, or a composed tree.
Floats are recognised by their spelling and turned into numbers outside the library,
in `app/`, which also connects the library to `serde`.
