# xa_promote

A simulator of how a message spreads through a social graph, and a
brute-force search over the message sequences a sender can post.

The library in `src/` is verified with Verus:

- `graph`: graphs as adjacency lists, walks and hop distances, and a
  breadth-first search proved to return the exact shortest distance of every
  node, or `None` for exactly the nodes that cannot be reached.
- `diffusion`: one diffusion of a message as a state machine that fixes the
  order of the offers, who has received the message, each round's frontier
  and all the counts. A whole diffusion (`diffuse`) asks its caller about
  each offer, threading a state of the caller's through the calls; its
  contract states the run move by move, as a sequence of states of that
  machine, with exactly one call per offer and none otherwise, each from the
  state the previous call left, and the counts it leaves. Lemmas about such
  runs state that every offer goes to a user the poster can reach, that the
  message reaches a user at most once and never returns to the poster, that
  exactly the users whose answers said so are counted, that the poster and
  each sharer offer the message once along each of their edges, so that the
  number of offers is the sum of their out-degrees, and that the count of
  rounds is the number of frontiers the run went through, the last round
  being the first to leave none. `multiple_diffuse` chains diffusions over
  messages (diffusing a list in one go is diffusing a first part and then
  the rest), and `monte_carlo_counts` over samples, each starting from the
  state a reset callback gives; both sum the counts, whose per-user sums
  are the totals of actions and shares. `user_action_results` picks the
  rows of the users who took part.
- `jobs`: the plan of the brute-force search (every sample of user states,
  poster and message sequence, in order, with model numbers), the check of
  the posters, and the counter that decides when a batch of results is
  written.
- `message`: the space of messages and the numbering of message sequences by
  base-`L` digits, proved to be a bijection between `0..L^T` and the
  sequences of `T` message ids, and to depend only on the index modulo
  `L^T`.
- `decision`: the latches that turn a user's utility sign into a decision,
  including one that fires exactly once.
- `sampling`, `config`: seeded sampling (with the law that fewer samples
  are a prefix of more), the drawing of distinct posters and of the
  generators of the user samples, and the plain settings of a run.

The program in `app/` loads the configuration and the graph, answers the
offers (a random draw against a floating-point probability, and the
floating-point utilities that decide each user's reaction), averages the
counts, runs the jobs in parallel and writes the results to Parquet files.
