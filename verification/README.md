# tinyrustc

The front end of a tiny Rust-like compiler, verified with Verus: a lexer in two
layers, an expression parser with error recovery, and a demand-driven query
database that recomputes only what a change makes necessary.

| module    | what it holds                                                        |
|-----------|----------------------------------------------------------------------|
| `span`    | byte positions and source ranges                                     |
| `symbol`  | interned names, with the keywords first                              |
| `text`    | characters and bytes, words, decimal numbers                         |
| `chars`   | which characters are space, letters and numbers                      |
| `lexer`   | raw tokens: what, and how long                                       |
| `token`   | spanned tokens: what, where, and which name                          |
| `ast`     | expressions                                                          |
| `grammar` | what the parser computes from any token stream                       |
| `syntax`  | the grammar of expressions, and that the parser accepts exactly that |
| `parser`  | the parser                                                           |
| `query`   | what the database does when a query is asked                         |
| `db`      | the database                                                         |

Every function has a contract over a mathematical model. The modules named
`laws`, `syntax` and `grammar::kinds` state and prove what follows for the library as a whole:

- tokens tile the text, spans slice back to what they name, and nothing but
  space and comments is lost;
- the parser reads exactly what is written according to the grammar, and reads
  it as what it means; operators nest the same way in faulty input; a node that
  could not be built never goes unreported; a node's span covers its children
  and a piece of the text; only the kinds of the tokens decide what is read;
- the database never answers with a stale value, runs no body twice between two
  writes, runs none at all for what has not changed, and stops at the first
  query whose answer comes out the same.

The classification of characters outside ASCII is the standard library's. What
is taken on trust of it stands in `chars`.
