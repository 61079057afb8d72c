# Jira Lens

A lightweight viewer and editor for Jira Cloud issues: a parent/child tree,
a filterable table, editing of issue fields, worklogs and a due-date
calendar. The library holds the logic with its contracts, proved by Verus;
the program around it does the network, keyring, database and terminal work.

## Layout

- `src/` — the verified library
  - `text`, `duration`, `adf`: text handling, Jira durations (`1d 2h 30m`),
    and Atlassian Document Format text extraction and building
  - `issue`, `demo`: the issue model, custom fields, sample issues
  - `keys`, `hierarchy`, `forest`, `tree`, `rows`: key sets and order, the
    parent chain, the display order, the navigation tree and the table rows
  - `options`, `edits`, `calendar`: filter choices, detail pane, custom
    columns, table edits and their checks, the month view
  - `jira`, `fetch`, `requests`: API data, the page-by-page fetch of every
    issue as a state machine, edits and worklogs as planned requests
  - `oauth`: configuration, loopback redirect checks, the authorization
    address, callback decisions and the page answered to the browser
- `app/` — the command-line program: HTTP with `reqwest`, the sign-in
  listener, `keyring`, the SQLite cache
- `tests/` — tests of the library

## Commands

```
jira-lens                                   cached (or sample) issues
jira-lens table QUERY PARENT TYPE STATUS [collapse-all]
jira-lens sync                              sign in and fetch every issue
jira-lens update KEY SUMMARY DESCRIPTION DUE ESTIMATE
jira-lens edit KEY FIELD VALUE [KEY FIELD VALUE ...]   summary, duedate, estimate, remaining or a custom field id
jira-lens worklog KEY YYYY-MM-DD HH:MM MINUTES
jira-lens calendar [YEAR MONTH [MOVE]]
jira-lens open KEY
```

Signing in needs `JIRA_OAUTH_CLIENT_ID` and `JIRA_OAUTH_CLIENT_SECRET`, and
optionally `JIRA_OAUTH_REDIRECT_URI` (default
`http://127.0.0.1:53682/callback`).
