# RustGuard

RustGuard finds leaks of internal data in file access logs. It models each user by itself, with
two engines: an isolation forest, and a hybrid of robust deviations and density clusters. It
fuses their verdicts, explains what it reports, and gathers reports into incidents.

The rules are a Verus library in `src/`: each function states what it returns, and Verus proves
it. Properties that span functions are the `law_...` proof functions.

| module      | what it holds                                                         |
|-------------|-----------------------------------------------------------------------|
| `double`    | doubles by their bit patterns: order, absolute value, the larger      |
| `order`     | stable sorting                                                        |
| `counting`  | how many indexes have a property, and which                           |
| `text`      | comparison of texts, numbers in decimal                               |
| `calendar`  | days, clock times, workdays and weekends (`chrono`)                   |
| `draws`     | random whole numbers (`rand`)                                         |
| `record`    | the log line                                                          |
| `generate`  | the generator of evaluation data                                      |
| `features`  | what the features of a line are computed from                         |
| `groups`    | the lines of each user                                                |
| `forest`    | the isolation forest                                                  |
| `hybrid`    | candidates, clusters, bridging, baselines                             |
| `fusion`    | the rules that combine the engines                                    |
| `metrics`   | comparison with the labels                                            |
| `explain`   | reasons and risk                                                      |
| `linking`   | which reported lines belong together                                  |
| `incidents` | their incidents, with time, risk and reasons                          |

Arithmetic on doubles (logarithms, means, distances, clustering) is done in `app/`, around the
library: it computes the numbers that a rule compares, and hands them over as bit patterns.
`app/` also reads the clock and the time zone, prints, and writes `report.json`.
